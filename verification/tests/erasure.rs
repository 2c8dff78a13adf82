use mininet::erasure::{encode, reconstruct, ErasureError, ErasureParams, Shard};
use mininet::gf256::{inv, mul, pow};
use mininet::health::{digest, plan_repair, repair, verify_shard};
use mininet::matrix::{generator_matrix, Matrix};

fn combinations(n: usize, k: usize) -> Vec<Vec<usize>> {
    let mut out = Vec::new();
    let mut current = Vec::new();
    go(n, k, 0, &mut current, &mut out);
    out
}

fn go(n: usize, k: usize, start: usize, current: &mut Vec<usize>, out: &mut Vec<Vec<usize>>) {
    if current.len() == k {
        out.push(current.clone());
        return;
    }
    for i in start..n {
        current.push(i);
        go(n, k, i + 1, current, out);
        current.pop();
    }
}

fn store(shards: Vec<Shard>) -> Vec<Option<Shard>> {
    shards.into_iter().map(Some).collect()
}

fn encode_and_digests(data: &[u8], params: ErasureParams) -> (Vec<Shard>, Vec<[u8; 32]>, usize) {
    let encoded = encode(data, params).unwrap();
    let digests = encoded.shards.iter().map(|s| digest(&s.bytes)).collect();
    (encoded.shards, digests, encoded.original_len)
}

#[test]
fn multiplying_by_zero_is_zero() {
    for a in 0..=255u8 {
        assert_eq!(mul(a, 0), 0);
        assert_eq!(mul(0, a), 0);
    }
}

#[test]
fn multiplying_by_one_is_identity() {
    for a in 0..=255u8 {
        assert_eq!(mul(a, 1), a);
        assert_eq!(mul(1, a), a);
    }
}

#[test]
fn multiplication_is_commutative() {
    for a in 0..=255u8 {
        for b in 0..=255u8 {
            assert_eq!(mul(a, b), mul(b, a));
        }
    }
}

#[test]
fn every_nonzero_element_has_a_true_inverse() {
    for a in 1..=255u8 {
        let inverse = inv(a);
        assert_eq!(mul(a, inverse), 1, "inv({a}) = {inverse} did not satisfy a * inv(a) == 1");
    }
}

#[test]
fn pow_matches_repeated_multiplication() {
    for base in [2u8, 3, 7, 200] {
        let mut expected = 1u8;
        for exp in 0..6u32 {
            assert_eq!(pow(base, exp), expected);
            expected = mul(expected, base);
        }
    }
}

#[test]
fn field_multiplication_has_exact_known_values() {
    assert_eq!(mul(2, 0x80), 0x1d);
    assert_eq!(mul(3, 7), 9);
    assert_eq!(pow(2, 8), 0x1d);
    assert_eq!(inv(2), 0x8e);
}

#[test]
fn multiplication_is_associative_and_distributes_over_xor() {
    for a in [1u8, 2, 29, 77, 200, 255] {
        for b in [0u8, 3, 91, 128, 254] {
            for c in [1u8, 5, 64, 133] {
                assert_eq!(mul(mul(a, b), c), mul(a, mul(b, c)));
                assert_eq!(mul(a, b ^ c), mul(a, b) ^ mul(a, c));
            }
        }
    }
}

#[test]
fn identity_times_anything_is_itself() {
    let g = generator_matrix(4, 2);
    let sub = g.select_rows(&[0, 1, 2, 3]);
    let id = Matrix::identity(4);
    assert_eq!(id.mul(&sub), sub);
}

#[test]
fn generator_top_block_is_identity() {
    let g = generator_matrix(5, 3);
    for i in 0..5 {
        for j in 0..5 {
            let expected = if i == j { 1 } else { 0 };
            assert_eq!(g.get(i, j), expected);
        }
    }
}

#[test]
fn generator_has_the_right_shape_and_an_identity_top() {
    let g = generator_matrix(3, 2);
    assert_eq!(g.rows(), 5);
    assert_eq!(g.cols(), 3);
    assert_eq!(g.select_rows(&[0, 1, 2]), Matrix::identity(3));
    // Parity rows are not unit rows: every entry of them is used.
    for r in 3..5 {
        for c in 0..3 {
            assert_ne!(g.get(r, c), 0);
        }
    }
}

#[test]
fn every_k_row_subset_of_larger_generators_is_invertible() {
    for (k, m) in [(4usize, 6usize), (4, 8), (5, 4), (3, 9)] {
        let g = generator_matrix(k, m);
        for subset in combinations(k + m, k) {
            let sub = g.select_rows(&subset);
            let inverse = sub.invert().expect("every k rows must invert");
            assert_eq!(inverse.mul(&sub), Matrix::identity(k));
            assert_eq!(sub.mul(&inverse), Matrix::identity(k));
        }
    }
}

#[test]
fn every_k_row_subset_of_the_generator_is_invertible() {
    let data_shards = 4;
    let parity_shards = 3;
    let g = generator_matrix(data_shards, parity_shards);
    let n = data_shards + parity_shards;
    for subset in combinations(n, data_shards) {
        let sub = g.select_rows(&subset);
        assert!(sub.invert().is_some(), "subset {subset:?} produced a singular matrix");
    }
}

#[test]
fn inverse_of_identity_is_identity() {
    let id = Matrix::identity(5);
    assert_eq!(id.invert().unwrap(), id);
}

#[test]
fn matrix_times_its_inverse_is_identity() {
    let data_shards = 4;
    let parity_shards = 2;
    let g = generator_matrix(data_shards, parity_shards);
    let sub = g.select_rows(&[0, 2, 4, 5]);
    let inverse = sub.invert().unwrap();
    assert_eq!(sub.mul(&inverse), Matrix::identity(data_shards));
    assert_eq!(inverse.mul(&sub), Matrix::identity(data_shards));
}

#[test]
fn a_singular_matrix_has_no_inverse() {
    let mut m = Matrix::zeros(2, 2);
    m.set(0, 0, 1);
    m.set(0, 1, 2);
    m.set(1, 0, 1);
    m.set(1, 1, 2);
    assert!(m.invert().is_none());
}

#[test]
fn a_single_row_keeps_its_values() {
    let g = generator_matrix(3, 2);
    let r = g.row(4);
    assert_eq!(r.rows(), 1);
    assert_eq!(r.cols(), 3);
    for j in 0..3 {
        assert_eq!(r.get(0, j), g.get(4, j));
    }
}

#[test]
fn zero_data_or_parity_shards_is_rejected() {
    assert!(matches!(ErasureParams::new(0, 2), Err(ErasureError::InvalidParams { .. })));
    assert!(matches!(ErasureParams::new(4, 0), Err(ErasureError::InvalidParams { .. })));
}

#[test]
fn too_many_total_shards_is_rejected() {
    assert!(matches!(ErasureParams::new(200, 100), Err(ErasureError::InvalidParams { .. })));
}

#[test]
fn empty_data_is_rejected() {
    let params = ErasureParams::new(4, 2).unwrap();
    assert!(matches!(encode(&[], params), Err(ErasureError::EmptyData)));
}

#[test]
fn encoding_then_reconstructing_all_shards_recovers_the_original() {
    let params = ErasureParams::new(4, 2).unwrap();
    let data = b"the quick brown fox jumps over the lazy dog, thirty-six bytes and change".to_vec();
    let encoded = encode(&data, params).unwrap();
    let shards: Vec<Option<Shard>> = encoded.shards.into_iter().map(Some).collect();
    let recovered = reconstruct(params, &shards, encoded.original_len).unwrap();
    assert_eq!(recovered, data);
}

#[test]
fn reconstructing_from_any_k_of_n_shards_recovers_the_original() {
    let params = ErasureParams::new(4, 3).unwrap();
    let data = b"erasure coding recovers data from any k of n shards, not just the first k".to_vec();
    let encoded = encode(&data, params).unwrap();
    for missing in combinations(params.total_shards(), params.total_shards() - params.data_shards) {
        let shards: Vec<Option<Shard>> = encoded
            .shards
            .iter()
            .map(|s| if missing.contains(&s.index) { None } else { Some(s.clone()) })
            .collect();
        let recovered = reconstruct(params, &shards, encoded.original_len).unwrap();
        assert_eq!(recovered, data, "failed with missing shards {missing:?}");
    }
}

#[test]
fn fewer_than_data_shards_available_fails_cleanly() {
    let params = ErasureParams::new(4, 2).unwrap();
    let data = b"not enough shards survive to reconstruct this".to_vec();
    let encoded = encode(&data, params).unwrap();
    let mut shards: Vec<Option<Shard>> = encoded.shards.into_iter().map(Some).collect();
    shards[0] = None;
    shards[1] = None;
    shards[2] = None;
    assert!(matches!(
        reconstruct(params, &shards, data.len()),
        Err(ErasureError::TooManyMissingShards { available: 3, needed: 4 })
    ));
}

#[test]
fn wrong_shard_slice_length_is_rejected() {
    let params = ErasureParams::new(4, 2).unwrap();
    let shards = vec![None; 5];
    assert!(matches!(
        reconstruct(params, &shards, 10),
        Err(ErasureError::WrongShardCount { expected: 6, got: 5 })
    ));
}

#[test]
fn non_aligned_data_length_round_trips_exactly() {
    let params = ErasureParams::new(3, 2).unwrap();
    for len in 1..40usize {
        let data: Vec<u8> = (0..len).map(|i| (i * 7 % 251) as u8).collect();
        let encoded = encode(&data, params).unwrap();
        let shards: Vec<Option<Shard>> = encoded.shards.into_iter().map(Some).collect();
        let recovered = reconstruct(params, &shards, encoded.original_len).unwrap();
        assert_eq!(recovered, data, "round trip failed for length {len}");
    }
}

#[test]
fn data_shards_hold_the_data_unencoded() {
    let params = ErasureParams::new(3, 2).unwrap();
    let data = b"abcdefgh".to_vec();
    let encoded = encode(&data, params).unwrap();
    assert_eq!(encoded.original_len, 8);
    assert_eq!(encoded.shards.len(), 5);
    assert_eq!(encoded.shards[0].bytes, b"abc".to_vec());
    assert_eq!(encoded.shards[1].bytes, b"def".to_vec());
    assert_eq!(encoded.shards[2].bytes, vec![b'g', b'h', 0]);
    for (i, s) in encoded.shards.iter().enumerate() {
        assert_eq!(s.index, i);
    }
}

#[test]
fn a_fully_healthy_set_needs_no_repair() {
    let params = ErasureParams::new(4, 2).unwrap();
    let data = b"nothing is missing, nothing needs healing here".to_vec();
    let (shards, digests, len) = encode_and_digests(&data, params);
    let available: Vec<Option<Shard>> = shards.into_iter().map(Some).collect();
    let plan = plan_repair(params, &available, &digests);
    assert!(plan.missing.is_empty());
    assert!(plan.reconstructable);
    let repaired = repair(params, &available, &digests, len).unwrap();
    assert!(repaired.is_empty());
}

#[test]
fn missing_shards_are_regenerated_identically_to_the_originals() {
    let params = ErasureParams::new(4, 3).unwrap();
    let data = b"lose two shards, heal them back to exactly what they were before".to_vec();
    let (shards, digests, len) = encode_and_digests(&data, params);
    let mut available: Vec<Option<Shard>> = shards.iter().cloned().map(Some).collect();
    available[1] = None;
    available[5] = None;
    let plan = plan_repair(params, &available, &digests);
    assert_eq!(plan.missing, vec![1, 5]);
    assert!(plan.reconstructable);
    let repaired = repair(params, &available, &digests, len).unwrap();
    assert_eq!(repaired.len(), 2);
    for shard in &repaired {
        assert_eq!(shard.bytes, shards[shard.index].bytes);
    }
}

#[test]
fn a_corrupted_shard_is_treated_the_same_as_a_missing_one() {
    let params = ErasureParams::new(4, 2).unwrap();
    let data = b"corruption must be caught, not silently trusted as valid data".to_vec();
    let (shards, digests, len) = encode_and_digests(&data, params);
    let mut available: Vec<Option<Shard>> = shards.iter().cloned().map(Some).collect();
    available[2].as_mut().unwrap().bytes[0] ^= 0xff;
    let plan = plan_repair(params, &available, &digests);
    assert_eq!(plan.missing, vec![2]);
    let repaired = repair(params, &available, &digests, len).unwrap();
    assert_eq!(repaired.len(), 1);
    assert_eq!(repaired[0].index, 2);
    assert_eq!(repaired[0].bytes, shards[2].bytes);
}

#[test]
fn too_few_verified_shards_reports_unreconstructable_and_repair_fails() {
    let params = ErasureParams::new(4, 2).unwrap();
    let data = b"three good shards is one short of the four we need".to_vec();
    let (shards, digests, len) = encode_and_digests(&data, params);
    let mut available: Vec<Option<Shard>> = shards.into_iter().map(Some).collect();
    available[0] = None;
    available[1] = None;
    available[2] = None;
    let plan = plan_repair(params, &available, &digests);
    assert!(!plan.reconstructable);
    assert!(matches!(
        repair(params, &available, &digests, len),
        Err(ErasureError::TooManyMissingShards { .. })
    ));
}

#[test]
fn regenerated_shards_pass_their_own_integrity_check() {
    let params = ErasureParams::new(5, 2).unwrap();
    let data = b"a repaired shard must verify against the same digest as the original".to_vec();
    let (shards, digests, len) = encode_and_digests(&data, params);
    let mut available: Vec<Option<Shard>> = shards.into_iter().map(Some).collect();
    available[6] = None;
    let repaired = repair(params, &available, &digests, len).unwrap();
    assert!(verify_shard(&repaired[0], digests[6]));
}

#[test]
fn digest_is_blake3_of_the_bytes() {
    let d = digest(b"abc");
    assert_eq!(
        d[..4],
        [0x64, 0x37, 0xb3, 0xac],
        "BLAKE3 of \"abc\" begins 6437b3ac"
    );
    assert_ne!(digest(b"abc"), digest(b"abd"));
    let shard = Shard { index: 0, bytes: b"abc".to_vec() };
    assert!(verify_shard(&shard, d));
    assert!(!verify_shard(&shard, digest(b"abd")));
}

#[test]
fn a_file_survives_two_separate_partial_outages_and_still_heals_completely() {
    let params = ErasureParams::new(6, 4).unwrap();
    let data: Vec<u8> = (0..3000u32).map(|i| (i % 251) as u8).collect();
    let encoded = encode(&data, params).unwrap();
    let digests: Vec<[u8; 32]> = encoded.shards.iter().map(|s| digest(&s.bytes)).collect();
    let mut holders = store(encoded.shards);
    for i in [0, 3, 7] {
        holders[i] = None;
    }
    let plan = plan_repair(params, &holders, &digests);
    assert_eq!(plan.missing, vec![0, 3, 7]);
    assert!(plan.reconstructable);
    let repaired = repair(params, &holders, &digests, encoded.original_len).unwrap();
    assert_eq!(repaired.len(), 3);
    for shard in repaired {
        let index = shard.index;
        holders[index] = Some(shard);
    }
    assert!(plan_repair(params, &holders, &digests).missing.is_empty());
    for i in [0, 5, 9] {
        holders[i] = None;
    }
    let repaired_again = repair(params, &holders, &digests, encoded.original_len).unwrap();
    for shard in repaired_again {
        let index = shard.index;
        holders[index] = Some(shard);
    }
    assert!(plan_repair(params, &holders, &digests).missing.is_empty());
    let recovered = reconstruct(params, &holders, encoded.original_len).unwrap();
    assert_eq!(recovered, data);
}

#[test]
fn an_outage_beyond_the_parity_budget_is_reported_unreconstructable_not_silently_wrong() {
    let params = ErasureParams::new(4, 2).unwrap();
    let data = b"losing more than parity_shards holders is unrecoverable, and must say so".to_vec();
    let encoded = encode(&data, params).unwrap();
    let digests: Vec<[u8; 32]> = encoded.shards.iter().map(|s| digest(&s.bytes)).collect();
    let mut holders = store(encoded.shards);
    holders[0] = None;
    holders[1] = None;
    holders[2] = None;
    let plan = plan_repair(params, &holders, &digests);
    assert!(!plan.reconstructable);
    assert!(repair(params, &holders, &digests, encoded.original_len).is_err());
}

#[test]
fn any_data_shards_survivors_rebuild_the_data() {
    for (k, m, keep) in [(4usize, 6usize, vec![1usize, 4, 5, 9]), (4, 8, vec![2, 4, 8, 11])] {
        let params = ErasureParams::new(k, m).unwrap();
        let data = b"any k of the n shards are enough".to_vec();
        let encoded = encode(&data, params).unwrap();
        let shards: Vec<Option<Shard>> = encoded
            .shards
            .iter()
            .map(|s| if keep.contains(&s.index) { Some(s.clone()) } else { None })
            .collect();
        assert_eq!(reconstruct(params, &shards, encoded.original_len).unwrap(), data);
    }
}

#[test]
fn repair_from_any_data_shards_verified_survivors() {
    let params = ErasureParams::new(4, 6).unwrap();
    let data = b"verified survivors are always enough".to_vec();
    let (shards, digests, len) = encode_and_digests(&data, params);
    let keep = [1usize, 4, 5, 9];
    let mut damaged: Vec<Option<Shard>> = shards
        .iter()
        .map(|s| if keep.contains(&s.index) { Some(s.clone()) } else { None })
        .collect();
    // A corrupted shard does not count as verified.
    let mut bad = shards[0].clone();
    bad.bytes[0] ^= 1;
    damaged[0] = Some(bad);
    let regenerated = repair(params, &damaged, &digests, len).unwrap();
    let indices: Vec<usize> = regenerated.iter().map(|s| s.index).collect();
    assert_eq!(indices, vec![0, 2, 3, 6, 7, 8]);
    for shard in &regenerated {
        assert_eq!(shard.bytes, shards[shard.index].bytes);
    }
}
