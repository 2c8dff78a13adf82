use mininet::connectivity::{
    is_cgnat, is_publicly_reachable, ConnectionCard, ConnectionSettings, PeerEntry, DEFAULT_PORT,
};
use mininet::did::DidVerdicts;
use mininet::network_session::{validate_endpoint, SessionLength, MAX_SESSION_PEERS};

const HEADER: &str = "mininet-connections/1";
const DID: &str =
    "did:mini:EAAAAAAAAAAAAAAAAAAAAAAAAAAAAAAAAAAAAAAAAAAAAAAAAAAAAAAAAAAAAAAAAAAAAAAAAAAAAAAAAAAAAAAA";

/// The did:mini parser's verdicts as these tests need them: each `good`
/// text is an identifier, canonical as written; each `bad` text is refused.
fn parser(good: &[&str], bad: &[&str]) -> DidVerdicts {
    let mut v = DidVerdicts::new();
    for g in good {
        v.record(g, Ok(g.to_string()));
    }
    for b in bad {
        v.record(b, Err("invalid did:mini identifier".to_string()));
    }
    v
}

fn dids() -> DidVerdicts {
    let bad = format!("{DID}-not-a-did");
    parser(&[DID, "did:mini:x"], &[bad.as_str(), ""])
}

#[test]
fn defaults_start_no_network_activity() {
    let settings = ConnectionSettings::default();
    assert!(!settings.session_on_launch);
    assert!(!settings.host_on_launch);
    assert!(!settings.include_private);
    assert!(settings.peers.is_empty());
    assert_eq!(settings.listen_port, DEFAULT_PORT);
}

#[test]
fn malformed_settings_are_rejected_whole() {
    assert!(ConnectionSettings::decode("something-else\nport\t1\n", &dids()).is_err());
    assert!(ConnectionSettings::decode(&format!("{HEADER}\nport\t0\n"), &dids()).is_err());
    assert!(ConnectionSettings::decode(&format!("{HEADER}\nsession_on_launch\tyes\n"), &dids()).is_err());
    assert!(ConnectionSettings::decode(&format!("{HEADER}\npeer\tAlice\tno-port\t\n"), &dids()).is_err());
    assert!(ConnectionSettings::decode(&format!("{HEADER}\nmystery\t1\n"), &dids()).is_err());
    assert!(ConnectionSettings::decode(
        &format!("{HEADER}\npeer\tAlice\thost:1\t{DID}-not-a-did\n"),
        &dids()
    )
    .is_err());
    let ok = ConnectionSettings::decode(&format!("{HEADER}\n\nport\t5000\n"), &dids()).unwrap();
    assert_eq!(ok.listen_port, 5000);
}

#[test]
fn settings_round_trip_including_peers() {
    let mut settings = ConnectionSettings {
        listen_port: 47001,
        session_length: SessionLength::WhileOpen,
        session_on_launch: true,
        host_on_launch: true,
        router_mapping_on_launch: true,
        include_private: true,
        rate_micro_per_mb: 25,
        max_pay_micro_per_mb: 40,
        creator_bps: 5000,
        peers: Vec::new(),
    };
    assert!(settings.upsert_peer("Alice", "alice.example:46000", Some(DID), &dids()).unwrap());
    assert!(settings.upsert_peer("Bob", "[2001:db8::2]:46000", None, &dids()).unwrap());
    // Re-adding the same endpoint renames rather than duplicates.
    assert!(!settings.upsert_peer("Alice (home)", "alice.example:46000", None, &dids()).unwrap());
    let decoded = ConnectionSettings::decode(&settings.encode(), &dids()).unwrap();
    assert_eq!(decoded, settings);
    assert_eq!(decoded.peers.len(), 2);
    assert_eq!(decoded.peers[0].label, "Alice (home)");
    assert_eq!(decoded.peers[0].did.as_deref(), Some(DID));
    assert_eq!(decoded.peers[1].did, None);
    assert!(settings.remove_peer("[2001:db8::2]:46000"));
    assert!(!settings.remove_peer("[2001:db8::2]:46000"));
    assert_eq!(settings.endpoints(), vec!["alice.example:46000".to_string()]);
}

#[test]
fn encoded_settings_are_one_line_per_setting() {
    let mut settings = ConnectionSettings::default();
    settings.upsert_peer(" Carol\u{7} ", " carol.example:9 ", Some("  "), &dids()).unwrap();
    assert_eq!(
        settings.encode(),
        "mininet-connections/1\nport\t46000\nsession_length\t0\nsession_on_launch\t0\n\
         host_on_launch\t0\nrouter_mapping_on_launch\t0\ninclude_private\t0\n\
         rate_micro_per_mb\t10\nmax_pay_micro_per_mb\t50\ncreator_bps\t3000\n\
         peer\tCarol\tcarol.example:9\t\n"
    );
}

#[test]
fn decoding_reads_each_setting_and_reports_which_failed() {
    let text = format!(
        "{HEADER}\r\nport\t+5000\r\nsession_length\t1\nhost_on_launch\t1\textra\n  \n\
         rate_micro_per_mb\t18446744073709551615\ncreator_bps\t10000\n"
    );
    let settings = ConnectionSettings::decode(&text, &dids()).unwrap();
    assert_eq!(settings.listen_port, 5000);
    assert_eq!(settings.session_length, SessionLength::Hour);
    assert!(settings.host_on_launch);
    assert!(!settings.session_on_launch);
    assert_eq!(settings.rate_micro_per_mb, u64::MAX);
    assert_eq!(settings.creator_bps, 10000);
    assert_eq!(settings.max_pay_micro_per_mb, 50);

    let fail = |line: &str| ConnectionSettings::decode(&format!("{HEADER}\n{line}\n"), &dids()).unwrap_err();
    assert_eq!(fail("port\t65536"), "invalid listen port");
    assert_eq!(fail("port"), "invalid listen port");
    assert_eq!(fail("session_length\t3"), "invalid session length");
    assert_eq!(fail("session_on_launch\tyes"), "invalid flag value \"yes\"");
    assert_eq!(fail("include_private"), "invalid flag value \"\"");
    assert_eq!(fail("rate_micro_per_mb\t18446744073709551616"), "invalid rate");
    assert_eq!(fail("max_pay_micro_per_mb\t-1"), "invalid ceiling");
    assert_eq!(fail("creator_bps\t10001"), "invalid creator share");
    assert_eq!(fail("mystery\t1"), "unknown connection setting \"mystery\"");
    assert_eq!(fail("peer\t\thost:1\t"), "Give the peer a short name.");
    assert_eq!(fail("peer\tAlice\tno-port\t"), "A peer port is required.");
    assert_eq!(
        ConnectionSettings::decode("mininet-connections/2\n", &dids()).unwrap_err(),
        "unrecognized connection settings header"
    );
    assert_eq!(ConnectionSettings::decode("", &dids()).unwrap_err(), "unrecognized connection settings header");
}

#[test]
fn saved_peers_are_limited_and_labels_are_checked() {
    let mut settings = ConnectionSettings::default();
    for i in 0..MAX_SESSION_PEERS {
        assert!(settings.upsert_peer("peer", &format!("host{i}:1"), None, &dids()).unwrap());
    }
    assert_eq!(
        settings.upsert_peer("one more", "late.example:1", None, &dids()).unwrap_err(),
        format!("At most {MAX_SESSION_PEERS} peers can be saved. Remove one first.")
    );
    // Updating a saved endpoint still works when full.
    assert!(!settings.upsert_peer("renamed", "host0:1", Some("did:mini:x"), &dids()).unwrap());
    assert_eq!(settings.peers[0].label, "renamed");
    assert_eq!(settings.peers[0].did.as_deref(), Some("did:mini:x"));
    let long = "x".repeat(65);
    assert_eq!(
        settings.upsert_peer(&long, "host0:1", None, &dids()).unwrap_err(),
        "Peer names are limited to 64 bytes."
    );
    assert!(settings.upsert_peer(&"é".repeat(32), "host0:1", None, &dids()).is_ok());
    assert!(settings.upsert_peer(&"é".repeat(33), "host0:1", None, &dids()).is_err());
    assert_eq!(settings.peers[0].did.as_deref(), Some("did:mini:x"));
}

#[test]
fn endpoints_are_checked_and_trimmed() {
    assert_eq!(validate_endpoint("  host.example:46000 ").unwrap(), "host.example:46000");
    assert!(validate_endpoint("host.example").is_err());
    assert!(validate_endpoint(":46000").is_err());
    assert!(validate_endpoint("host.example:0").is_err());
    assert!(validate_endpoint("two words:1").is_err());
    let peer = PeerEntry {
        label: "Dan".into(),
        endpoint: "dan.example:1".into(),
        did: None,
    };
    assert_eq!(peer.clone(), peer);
}

#[test]
fn connection_card_encoding_drops_separators_from_the_name() {
    let card = ConnectionCard {
        endpoint: "203.0.113.5:46000".into(),
        did: DID.into(),
        name: "Alice; the first\n".into(),
    };
    assert_eq!(
        card.encode(),
        format!("mininet-peer-v1;endpoint=203.0.113.5:46000;did={DID};name=Alice the first")
    );
}

#[test]
fn connection_card_round_trips_and_rejects_garbage() {
    let card = ConnectionCard {
        endpoint: "203.0.113.5:46000".into(),
        did: DID.into(),
        name: "Alice; the first".into(),
    };
    let text = card.encode();
    let decoded = ConnectionCard::decode(&format!("  {text}\n"), &dids()).unwrap();
    assert_eq!(decoded.endpoint, card.endpoint);
    assert_eq!(decoded.did, DID);
    assert_eq!(decoded.name, "Alice the first");
    assert!(ConnectionCard::decode("mini-invite-v1.abc", &dids()).is_err());
    assert!(ConnectionCard::decode("mininet-peer-v1;endpoint=host:1", &dids()).is_err());
    assert!(ConnectionCard::decode(&format!(
        "mininet-peer-v1;endpoint=host:1;did={DID};name=A;extra=1"
    ), &dids())
    .is_err());
    assert!(ConnectionCard::decode(&format!("mininet-peer-v1;endpoint=host;did={DID};name=A"), &dids()).is_err());
}

#[test]
fn connection_card_errors_say_what_is_missing() {
    let decode = |t: &str| ConnectionCard::decode(t, &dids()).unwrap_err();
    assert_eq!(decode("mini-invite-v1.abc"), "This is not a Mininet connection card.");
    assert_eq!(decode("mininet-peer-v1;endpoint"), "The connection card is malformed.");
    assert_eq!(decode("mininet-peer-v1;endpoint=host:1"), "The connection card has no DID.");
    assert_eq!(decode("mininet-peer-v1;did=did:mini:x;name=A"), "The connection card has no endpoint.");
    assert_eq!(decode("mininet-peer-v1;endpoint=h:1;did=did:mini:x"), "The connection card has no name.");
    assert_eq!(
        decode("mininet-peer-v1;endpoint=h:1;did= ;name=A"),
        "The card's DID is malformed: invalid did:mini identifier"
    );
    assert_eq!(
        decode(&format!("mininet-peer-v1;endpoint=h:1;did={DID}-not-a-did;name=A")),
        "The card's DID is malformed: invalid did:mini identifier"
    );
    assert_eq!(decode("mininet-peer-v1;endpoint=h:1;did=unseen;name=A"), "The card's DID is malformed.");
    assert_eq!(decode("mininet-peer-v1;endpoint=h:1;did=did:mini:x;name=A;x=1"), "The connection card has an unknown field.");
    assert_eq!(decode("mininet-peer-v1;endpoint=h:1;did=did:mini:x;name= "), "Give the peer a short name.");
    let later = ConnectionCard::decode("mininet-peer-v1;name=A;endpoint=a:1;did=did:mini:x;endpoint=b:2", &dids()).unwrap();
    assert_eq!(later.endpoint, "b:2");
    assert_eq!(later.name, "A");
}

#[test]
fn carrier_grade_nat_range_is_recognised() {
    assert!(is_cgnat([100, 64, 0, 1]));
    assert!(is_cgnat([100, 127, 255, 254]));
    assert!(!is_cgnat([100, 128, 0, 1]));
    assert!(!is_cgnat([203, 0, 113, 5]));
}

#[test]
fn only_public_external_addresses_are_reported() {
    assert!(is_publicly_reachable([203, 0, 113, 5]));
    assert!(is_publicly_reachable([8, 8, 8, 8]));
    assert!(is_publicly_reachable([172, 32, 0, 1]));
    assert!(!is_publicly_reachable([0, 0, 0, 0]));
    assert!(!is_publicly_reachable([10, 1, 2, 3]));
    assert!(!is_publicly_reachable([172, 16, 0, 1]));
    assert!(!is_publicly_reachable([172, 31, 255, 255]));
    assert!(!is_publicly_reachable([192, 168, 1, 1]));
    assert!(!is_publicly_reachable([127, 0, 0, 1]));
    assert!(!is_publicly_reachable([169, 254, 3, 4]));
    assert!(!is_publicly_reachable([100, 100, 0, 1]));
}
