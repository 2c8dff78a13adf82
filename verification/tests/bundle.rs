use mininet::bundle::{
    append_object, finish_bundle, read_bundle_entry, read_bundle_header, start_bundle,
    MAX_BUNDLE_OBJECTS, MAX_BUNDLE_OBJECT_BYTES,
};

fn bundle_of(objects: &[&[u8]]) -> Vec<u8> {
    let mut bundle = start_bundle(objects.len()).unwrap();
    for object in objects {
        append_object(&mut bundle, object).unwrap();
    }
    bundle
}

fn read_all(bytes: &[u8]) -> Result<Vec<Vec<u8>>, String> {
    let (count, mut offset) = read_bundle_header(bytes)?;
    let mut out = Vec::new();
    for _ in 0..count {
        let (start, end) = read_bundle_entry(bytes, offset)?;
        out.push(bytes[start..end].to_vec());
        offset = end;
    }
    finish_bundle(bytes, offset)?;
    Ok(out)
}

#[test]
fn bundle_layout_is_magic_count_then_length_prefixed_objects() {
    let bundle = bundle_of(&[b"ab", b""]);
    let mut expected = b"MINIBND1".to_vec();
    expected.extend_from_slice(&[0, 0, 0, 2]);
    expected.extend_from_slice(&[0, 0, 0, 2, b'a', b'b']);
    expected.extend_from_slice(&[0, 0, 0, 0]);
    assert_eq!(bundle, expected);
    assert_eq!(read_bundle_header(&bundle), Ok((2, 12)));
    assert_eq!(read_bundle_entry(&bundle, 12), Ok((16, 18)));
    assert_eq!(read_bundle_entry(&bundle, 18), Ok((22, 22)));
    assert_eq!(finish_bundle(&bundle, 22), Ok(()));
}

#[test]
fn bundles_read_back_the_objects_written() {
    let objects: Vec<Vec<u8>> = vec![b"first object".to_vec(), Vec::new(), vec![0u8, 255, 7, 9]];
    let refs: Vec<&[u8]> = objects.iter().map(|o| o.as_slice()).collect();
    let bundle = bundle_of(&refs);
    assert_eq!(read_all(&bundle), Ok(objects));
    assert_eq!(read_all(&bundle_of(&[])), Ok(Vec::new()));
}

#[test]
fn exports_over_the_limits_are_refused() {
    assert_eq!(
        start_bundle(MAX_BUNDLE_OBJECTS + 1),
        Err("local store exceeds export object limit".to_string())
    );
    assert!(start_bundle(MAX_BUNDLE_OBJECTS).is_ok());
    let mut bundle = start_bundle(1).unwrap();
    let before = bundle.clone();
    let huge = vec![0u8; MAX_BUNDLE_OBJECT_BYTES + 1];
    assert_eq!(
        append_object(&mut bundle, &huge),
        Err("object exceeds export size limit".to_string())
    );
    assert_eq!(bundle, before);
}

#[test]
fn malformed_bundles_are_rejected() {
    let header = "invalid Mininet bundle header".to_string();
    assert_eq!(read_bundle_header(b"MINIBND1"), Err(header.clone()));
    assert_eq!(read_bundle_header(b"MINIBND2\0\0\0\0"), Err(header));
    let mut too_many = b"MINIBND1".to_vec();
    too_many.extend_from_slice(&10_001u32.to_be_bytes());
    assert_eq!(read_bundle_header(&too_many), Err("bundle exceeds object limit".to_string()));

    let bundle = bundle_of(&[b"abc"]);
    assert_eq!(read_bundle_entry(&bundle[..14], 12), Err("truncated bundle".to_string()));
    assert_eq!(
        read_bundle_entry(&bundle[..18], 12),
        Err("bundle object exceeds size limit".to_string())
    );
    let mut oversized = b"MINIBND1".to_vec();
    oversized.extend_from_slice(&1u32.to_be_bytes());
    oversized.extend_from_slice(&((MAX_BUNDLE_OBJECT_BYTES as u32) + 1).to_be_bytes());
    assert_eq!(
        read_bundle_entry(&oversized, 12),
        Err("bundle object exceeds size limit".to_string())
    );
    let mut trailing = bundle.clone();
    trailing.push(0);
    assert_eq!(read_all(&trailing), Err("bundle has trailing bytes".to_string()));
}
