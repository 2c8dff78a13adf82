use mininet::netsearch::{
    decode_results, encode_results, FetchSelection, RemoteResult, MAX_FETCH_BYTES, MAX_FETCH_OBJECTS,
    MAX_RESULTS,
};

fn hit(n: u64) -> RemoteResult {
    RemoteResult {
        post: format!("post-{n}"),
        media: format!("media-{n}"),
        title: "Title".into(),
        description: "Desc – with a dash".into(),
        author_name: "Alice".into(),
        author_did: "did:mini:alice".into(),
        kind: "Video".into(),
        bytes: 5 + n,
        timestamp_ms: 2 * n,
        via: String::new(),
    }
}

#[test]
fn results_round_trip_and_reject_garbage() {
    let results = vec![hit(1), hit(2)];
    let decoded = decode_results(&encode_results(&results)).unwrap();
    assert_eq!(decoded, results);
    assert!(decode_results(&[0, 9, 1]).is_err());
    assert_eq!(decode_results(&[0, 0]).unwrap(), Vec::<RemoteResult>::new());
}

#[test]
fn the_wire_layout_is_length_prefixed_big_endian() {
    let mut r = hit(0);
    r.post = "p".into();
    r.media = "m".into();
    r.title = String::new();
    r.description = "d".into();
    r.author_name = String::new();
    r.author_did = String::new();
    r.kind = "k".into();
    r.bytes = 0x0102;
    r.timestamp_ms = 3;
    r.via = "v".into();
    let bytes = encode_results(&[r]);
    let mut expected = vec![0, 1, 0, 1, b'p', 0, 1, b'm', 0, 0, 0, 1, b'd', 0, 0, 0, 0, 0, 1, b'k'];
    expected.extend_from_slice(&[0, 0, 0, 0, 0, 0, 1, 2]);
    expected.extend_from_slice(&[0, 0, 0, 0, 0, 0, 0, 3]);
    expected.extend_from_slice(&[0, 1, b'v']);
    assert_eq!(bytes, expected);
}

#[test]
fn replies_are_bounded_and_descriptions_shortened() {
    let many: Vec<RemoteResult> = (0..60).map(hit).collect();
    let decoded = decode_results(&encode_results(&many)).unwrap();
    assert_eq!(decoded.len(), MAX_RESULTS);
    assert_eq!(decoded[..], many[..MAX_RESULTS]);
    let mut long = hit(7);
    long.description = "é".repeat(300);
    let back = decode_results(&encode_results(&[long])).unwrap();
    assert_eq!(back[0].description, "é".repeat(240));
}

#[test]
fn malformed_replies_say_why() {
    assert_eq!(decode_results(&[0]).unwrap_err(), "truncated");
    assert_eq!(decode_results(&[0, 51]).unwrap_err(), "too many results");
    let mut bytes = encode_results(&[hit(1)]);
    bytes.push(0);
    assert_eq!(decode_results(&bytes).unwrap_err(), "trailing bytes");
    let bad = [0, 1, 0, 1, 0xff];
    assert_eq!(decode_results(&bad).unwrap_err(), "not UTF-8");
    assert_eq!(decode_results(&[0, 1, 0, 5, b'a']).unwrap_err(), "truncated");
}

#[test]
fn fetch_selection_takes_each_object_once_within_both_budgets() {
    let mut selection = FetchSelection::new();
    assert!(selection.offer("kel".into(), Some(100)));
    assert!(!selection.offer("kel".into(), Some(100)));
    // An object the store does not hold is not taken, and not offered again.
    assert!(!selection.offer("absent".into(), None));
    assert!(!selection.offer("absent".into(), Some(1)));
    // Too large for what is left: skipped, but smaller objects still fit.
    assert!(!selection.offer("huge".into(), Some(MAX_FETCH_BYTES)));
    assert!(selection.offer("post".into(), Some(MAX_FETCH_BYTES - 100)));
    assert!(!selection.offer("chunk".into(), Some(1)));
    assert!(selection.offer("empty".into(), Some(0)));
    assert!(!selection.is_full());
    assert_eq!(
        selection.into_ids(),
        vec!["kel".to_string(), "post".to_string(), "empty".to_string()]
    );
}

#[test]
fn fetch_selection_stops_at_the_object_count() {
    let mut selection = FetchSelection::new();
    for n in 0..MAX_FETCH_OBJECTS {
        assert!(selection.offer(format!("chunk-{n}"), Some(1)));
    }
    assert!(selection.is_full());
    assert!(!selection.offer("one-more".into(), Some(1)));
    assert_eq!(selection.into_ids().len(), MAX_FETCH_OBJECTS);
}
