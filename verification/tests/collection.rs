use mininet::library::{
    check_publish, collection_payload, parts_for, read_collection, CollectionObject, MAX_PARTS,
    PART_BYTES,
};

fn object(payload: Option<Vec<u8>>, parts: usize) -> CollectionObject {
    let mut links = vec![("author".to_string(), "kel".to_string())];
    for i in 0..parts {
        links.push(("part".to_string(), format!("manifest-{i}")));
    }
    CollectionObject {
        id: "collection-id".into(),
        object_type: "mininet/media-collection/v1".into(),
        public_payload: payload,
        links,
        author_human: "did:mini:alice".into(),
        timestamp_ms: 42,
    }
}

#[test]
fn published_collections_read_back() {
    let payload = collection_payload("movie.mkv", "video/x-matroska", PART_BYTES + 1);
    assert_eq!(payload[0], 1);
    assert_eq!(&payload[1..5], &[0, 0, 0, 9]);
    let c = read_collection(&object(Some(payload), 2)).unwrap();
    assert_eq!(c.name, "movie.mkv");
    assert_eq!(c.content_type, "video/x-matroska");
    assert_eq!(c.total_len, PART_BYTES + 1);
    assert_eq!(c.parts, vec!["manifest-0".to_string(), "manifest-1".to_string()]);
    assert_eq!(c.id, "collection-id");
    assert_eq!(c.author, "did:mini:alice");
    assert_eq!(c.timestamp_ms, 42);
}

#[test]
fn malformed_collections_say_why() {
    let good = collection_payload("a", "b", 10);
    let mut wrong_type = object(Some(good.clone()), 1);
    wrong_type.object_type = "post".into();
    assert_eq!(read_collection(&wrong_type).unwrap_err(), "not a media collection");
    assert_eq!(read_collection(&object(None, 1)).unwrap_err(), "collection payload is not public");
    let mut v2 = good.clone();
    v2[0] = 2;
    assert_eq!(read_collection(&object(Some(v2), 1)).unwrap_err(), "unknown collection version");
    let long = collection_payload(&"n".repeat(256), "b", 10);
    assert_eq!(read_collection(&object(Some(long), 1)).unwrap_err(), "malformed collection name");
    let long_type = collection_payload("a", &"t".repeat(129), 10);
    assert_eq!(read_collection(&object(Some(long_type), 1)).unwrap_err(), "malformed content type");
    let short = good[..good.len() - 1].to_vec();
    assert_eq!(read_collection(&object(Some(short), 1)).unwrap_err(), "malformed length");
    let mut trailing = good.clone();
    trailing.push(0);
    assert_eq!(read_collection(&object(Some(trailing), 1)).unwrap_err(), "trailing bytes in collection");
    assert_eq!(
        read_collection(&object(Some(good.clone()), 0)).unwrap_err(),
        "collection has no parts or too many"
    );
    assert_eq!(
        read_collection(&object(Some(good), MAX_PARTS + 1)).unwrap_err(),
        "collection has no parts or too many"
    );
    let too_long = collection_payload("a", "b", PART_BYTES + 1);
    assert_eq!(
        read_collection(&object(Some(too_long), 1)).unwrap_err(),
        "collection length exceeds its parts"
    );
}

#[test]
fn publish_requests_are_checked_and_split_into_parts() {
    assert_eq!(check_publish("  movie.mp4 ", "video/mp4").unwrap(), "movie.mp4");
    assert_eq!(check_publish("   ", "video/mp4").unwrap_err(), "name must be 1..=255 bytes");
    assert!(check_publish(&"é".repeat(128), "video/mp4").is_err());
    assert!(check_publish(&"é".repeat(127), "video/mp4").is_ok());
    assert_eq!(check_publish("a", "").unwrap_err(), "content type is empty or too long");
    assert_eq!(parts_for(0).unwrap_err(), "the file is empty");
    assert_eq!(parts_for(1), Ok(1));
    assert_eq!(parts_for(PART_BYTES), Ok(1));
    assert_eq!(parts_for(PART_BYTES + 1), Ok(2));
    assert_eq!(parts_for(PART_BYTES * MAX_PARTS as u64), Ok(MAX_PARTS));
    assert_eq!(
        parts_for(PART_BYTES * MAX_PARTS as u64 + 1).unwrap_err(),
        "file is larger than 64 GiB, the most one collection can hold"
    );
}
