//! Self-healing: find the shards that are missing or fail their BLAKE3
//! integrity check, reconstruct the data from the verified ones, and
//! regenerate exactly the shards that were lost.
use crate::erasure::{
    consistent_with, encoded_rows_of, encoded_shards, present_count,
    present_indices, reconstruct, regenerate_shard, shard_len_at, shard_len_for, shards_fit,
    data_matrix, padded_byte, ErasureError, ErasureParams, Shard,
};
use vstd::prelude::*;

verus! {

/// The BLAKE3 hash of a byte string, as computed by the `blake3` crate.
pub uninterp spec fn blake3_hash(bytes: Seq<u8>) -> Seq<u8>;

/// The BLAKE3 digest of `bytes`. Calls `blake3::hash`; the contract only
/// names its result as the BLAKE3 hash of the argument.
#[verifier::external_body]
pub fn digest(bytes: &[u8]) -> (d: [u8; 32])
    ensures
        d@ == blake3_hash(bytes@),
{
    blake3::hash(bytes).into()
}

fn bytes_equal_32(a: &[u8; 32], b: &[u8; 32]) -> (eq: bool)
    ensures
        eq == (a@ == b@),
{
    let mut i: usize = 0;
    while i < 32
        invariant
            i <= 32,
            a@.len() == 32,
            b@.len() == 32,
            forall|j: int| 0 <= j < i ==> a@[j] == b@[j],
        decreases 32 - i,
    {
        if a[i] != b[i] {
            return false;
        }
        i = i + 1;
    }
    assert(a@ =~= b@);
    true
}

/// Whether `shard`'s bytes hash to `expected_digest`.
pub fn verify_shard(shard: &Shard, expected_digest: [u8; 32]) -> (ok: bool)
    ensures
        ok == (blake3_hash(shard.bytes@) == expected_digest@),
{
    let d = digest(shard.bytes.as_slice());
    bytes_equal_32(&d, &expected_digest)
}

/// Position `i` holds a shard whose bytes hash to the recorded digest.
pub open spec fn shard_verified(shards: Seq<Option<Shard>>, digests: Seq<[u8; 32]>, i: int) -> bool {
    shards[i] matches Some(s) && blake3_hash(s.bytes@) == digests[i]@
}

/// Positions below `upto` that fail verification, in increasing order.
pub open spec fn unverified_indices(
    shards: Seq<Option<Shard>>,
    digests: Seq<[u8; 32]>,
    upto: nat,
) -> Seq<usize>
    decreases upto,
{
    if upto == 0 {
        Seq::empty()
    } else {
        let p = unverified_indices(shards, digests, (upto - 1) as nat);
        if shard_verified(shards, digests, upto - 1) {
            p
        } else {
            p.push((upto - 1) as usize)
        }
    }
}

/// How many positions below `upto` pass verification.
pub open spec fn verified_count(shards: Seq<Option<Shard>>, digests: Seq<[u8; 32]>, upto: nat) -> nat
    decreases upto,
{
    if upto == 0 {
        0
    } else {
        verified_count(shards, digests, (upto - 1) as nat) + if shard_verified(
            shards,
            digests,
            upto - 1,
        ) {
            1nat
        } else {
            0nat
        }
    }
}

/// Only the verified shards, each kept at its position.
pub open spec fn keeps_verified(
    kept: Seq<Option<Shard>>,
    shards: Seq<Option<Shard>>,
    digests: Seq<[u8; 32]>,
) -> bool {
    &&& kept.len() == shards.len()
    &&& forall|j: int|
        0 <= j < kept.len() ==> {
            &&& (#[trigger] kept[j] is Some <==> shard_verified(shards, digests, j))
            &&& kept[j] matches Some(c) ==> c.bytes@ == shards[j]->Some_0.bytes@
        }
}

/// A health assessment: positions that cannot be trusted, and whether
/// enough verified shards remain to reconstruct.
#[derive(Debug, Clone, PartialEq, Eq)]
pub struct RepairPlan {
    pub missing: Vec<usize>,
    pub reconstructable: bool,
}

/// Assess `shards` against `expected_digests` (position by position, over
/// the shorter of the two) without reconstructing anything.
pub fn plan_repair(
    params: ErasureParams,
    shards: &[Option<Shard>],
    expected_digests: &[[u8; 32]],
) -> (plan: RepairPlan)
    ensures
        ({
            let m = if shards@.len() <= expected_digests@.len() {
                shards@.len()
            } else {
                expected_digests@.len()
            };
            &&& plan.missing@ == unverified_indices(shards@, expected_digests@, m)
            &&& plan.reconstructable == (verified_count(shards@, expected_digests@, m)
                >= params.data_shards)
        }),
{
    let m = if shards.len() <= expected_digests.len() {
        shards.len()
    } else {
        expected_digests.len()
    };
    let mut missing: Vec<usize> = Vec::new();
    let mut verified: usize = 0;
    let mut i: usize = 0;
    while i < m
        invariant
            m <= shards@.len(),
            m <= expected_digests@.len(),
            i <= m,
            missing@ == unverified_indices(shards@, expected_digests@, i as nat),
            verified == verified_count(shards@, expected_digests@, i as nat),
            verified <= i,
        decreases m - i,
    {
        let ok = match &shards[i] {
            Some(shard) => verify_shard(shard, expected_digests[i]),
            None => false,
        };
        if ok {
            verified = verified + 1;
        } else {
            missing.push(i);
        }
        i = i + 1;
    }
    RepairPlan { missing, reconstructable: verified >= params.data_shards }
}

fn copy_shard(shard: &Shard) -> (c: Shard)
    ensures
        c.index == shard.index,
        c.bytes@ == shard.bytes@,
{
    let bytes = shard.bytes.clone();
    assert(bytes@ =~= shard.bytes@);
    Shard { index: shard.index, bytes }
}

proof fn lemma_kept_indices(
    kept: Seq<Option<Shard>>,
    shards: Seq<Option<Shard>>,
    digests: Seq<[u8; 32]>,
    upto: nat,
)
    requires
        keeps_verified(kept, shards, digests),
        upto <= kept.len(),
    ensures
        present_indices(kept, upto).len() == verified_count(shards, digests, upto),
    decreases upto,
{
    if upto > 0 {
        lemma_kept_indices(kept, shards, digests, (upto - 1) as nat);
    }
}

proof fn lemma_unverified_bound(shards: Seq<Option<Shard>>, digests: Seq<[u8; 32]>, upto: nat)
    ensures
        unverified_indices(shards, digests, upto).len() <= upto,
        forall|t: int|
            0 <= t < unverified_indices(shards, digests, upto).len() ==> #[trigger] unverified_indices(
                shards,
                digests,
                upto,
            )[t] < upto,
    decreases upto,
{
    if upto > 0 {
        lemma_unverified_bound(shards, digests, (upto - 1) as nat);
    }
}

/// Reconstruct the data from the shards that verify against
/// `expected_digests`, then regenerate exactly the shards that are missing
/// or fail verification, in increasing position order.
pub fn repair(
    params: ErasureParams,
    shards: &[Option<Shard>],
    expected_digests: &[[u8; 32]],
    original_len: usize,
) -> (r: Result<Vec<Shard>, ErasureError>)
    requires
        params.valid(),
        shards_fit(params, shards@),
    ensures
        (shards@.len() != params.total() || expected_digests@.len() != params.total()) ==> r
            == Err::<Vec<Shard>, ErasureError>(
            ErasureError::WrongShardCount { expected: params.total() as usize, got: shards@.len() as usize },
        ),
        ({
            let n = params.total();
            let missing = unverified_indices(shards@, expected_digests@, n);
            let count = verified_count(shards@, expected_digests@, n);
            shards@.len() == n && expected_digests@.len() == n ==> {
                &&& missing.len() == 0 ==> (r matches Ok(v) && v@.len() == 0)
                &&& missing.len() > 0 && count < params.data_shards ==> r == Err::<
                    Vec<Shard>,
                    ErasureError,
                >(
                    ErasureError::TooManyMissingShards {
                        available: count as usize,
                        needed: params.data_shards,
                    },
                )
                &&& count >= params.data_shards ==> r is Ok
                &&& r matches Ok(v) ==> {
                    &&& v@.len() == missing.len()
                    &&& forall|t: int| 0 <= t < v@.len() ==> #[trigger] v@[t].index == missing[t]
                    &&& forall|data: Seq<u8>|
                        data.len() == original_len && (forall|i: int|
                            0 <= i < n && #[trigger] shard_verified(shards@, expected_digests@, i)
                                ==> shards@[i]->Some_0.bytes@ == encoded_shards(params, data)[i])
                            ==> forall|t: int|
                            0 <= t < v@.len() ==> (#[trigger] v@[t]).bytes@ == encoded_shards(
                                params,
                                data,
                            )[missing[t] as int]
                }
            }
        }),
{
    let k = params.data_shards;
    let n = params.data_shards + params.parity_shards;
    if shards.len() != n || expected_digests.len() != n {
        return Err(ErasureError::WrongShardCount { expected: n, got: shards.len() });
    }
    let mut verified: Vec<Option<Shard>> = Vec::new();
    let mut missing: Vec<usize> = Vec::new();
    let mut i: usize = 0;
    while i < n
        invariant
            n == params.total(),
            shards@.len() == n,
            expected_digests@.len() == n,
            i <= n,
            verified@.len() == i,
            missing@ == unverified_indices(shards@, expected_digests@, i as nat),
            forall|j: int|
                0 <= j < i ==> {
                    &&& (#[trigger] verified@[j] is Some <==> shard_verified(
                        shards@,
                        expected_digests@,
                        j,
                    ))
                    &&& verified@[j] matches Some(c) ==> c.bytes@ == shards@[j]->Some_0.bytes@
                },
        decreases n - i,
    {
        let kept = match &shards[i] {
            Some(shard) => {
                if verify_shard(shard, expected_digests[i]) {
                    Some(copy_shard(shard))
                } else {
                    None
                }
            },
            None => None,
        };
        let ghost before = verified@;
        if kept.is_none() {
            missing.push(i);
        }
        verified.push(kept);
        proof {
            assert forall|j: int| 0 <= j < i + 1 implies {
                &&& (#[trigger] verified@[j] is Some <==> shard_verified(
                    shards@,
                    expected_digests@,
                    j,
                ))
                &&& verified@[j] matches Some(c) ==> c.bytes@ == shards@[j]->Some_0.bytes@
            } by {
                if j < i {
                    assert(verified@[j] == before[j]);
                }
            }
        }
        i = i + 1;
    }
    proof {
        assert(keeps_verified(verified@, shards@, expected_digests@));
        lemma_kept_indices(verified@, shards@, expected_digests@, n as nat);
        lemma_unverified_bound(shards@, expected_digests@, n as nat);
        assert forall|j: int| 0 <= j < verified@.len() implies #[trigger] shard_len_at(verified@, j)
            * params.total() <= usize::MAX by {
            assert(shards_fit(params, shards@));
            assert(shard_len_at(shards@, j) * params.total() <= usize::MAX);
            assert(verified@[j] is Some <==> shard_verified(shards@, expected_digests@, j));
            if verified@[j] is Some {
                assert(shard_len_at(verified@, j) == shard_len_at(shards@, j));
            } else {
                assert(shard_len_at(verified@, j) == 0);
            }
        }
        if forall|j: int|
            0 <= j < params.data_shards ==> #[trigger] shard_verified(
                shards@,
                expected_digests@,
                j,
            ) {
            assert forall|j: int| 0 <= j < params.data_shards implies #[trigger] verified@[j] is Some by {
                assert(shard_verified(shards@, expected_digests@, j));
            }
        }
    }
    if missing.len() == 0 {
        return Ok(Vec::new());
    }
    let original_data = match reconstruct(params, verified.as_slice(), original_len) {
        Ok(data) => data,
        Err(e) => {
            return Err(e);
        },
    };
    // The first verified shard fixes the shard length.
    let mut first: usize = 0;
    while first < n && verified[first].is_none()
        invariant
            first <= n,
            verified@.len() == n,
            present_indices(verified@, first as nat).len() == 0,
        decreases n - first,
    {
        first = first + 1;
    }
    proof {
        if first == n {
            assert(present_count(verified@) == 0);
        }
        assert(present_indices(verified@, (first + 1) as nat) == seq![first]);
        lemma_first_present(verified@, first as nat);
    }
    let shard_len = match &verified[first] {
        Some(s) => s.bytes.len(),
        None => 0,
    };
    proof {
        assert(shard_len == shard_len_at(verified@, first as int));
        assert(params.total() * shard_len == shard_len * params.total()) by (nonlinear_arith);
        assert(k * shard_len <= n * shard_len) by (nonlinear_arith)
            requires
                k <= n,
        ;
        assert(shard_len * k == k * shard_len) by (nonlinear_arith);
        assert(original_data@.len() <= k * shard_len);
    }
    let ghost recovered = original_data@;
    let mut padded = original_data;
    padded.resize(shard_len * k, 0);
    proof {
        assert(padded@.len() == k * shard_len);
        assert forall|t: int| 0 <= t < padded@.len() implies #[trigger] padded@[t] == padded_byte(
            recovered,
            t,
        ) by {
            if t >= recovered.len() {
                assert(vstd::pervasive::cloned(0u8, padded@[t]));
            } else {
                assert(padded@.subrange(0, recovered.len() as int) == recovered);
                assert(padded@[t] == padded@.subrange(0, recovered.len() as int)[t]);
            }
        }
    }
    let mut out: Vec<Shard> = Vec::new();
    let mut t: usize = 0;
    while t < missing.len()
        invariant
            params.valid(),
            n == params.total(),
            params.total() * shard_len <= usize::MAX,
            forall|u: int| 0 <= u < missing@.len() ==> #[trigger] missing@[u] < n,
            t <= missing@.len(),
            out@.len() == t,
            forall|u: int|
                0 <= u < t ==> #[trigger] out@[u].index == missing@[u] && out@[u].bytes@
                    == encoded_rows_of(params, padded@, shard_len as nat)[missing@[u] as int],
        decreases missing@.len() - t,
    {
        let index = missing[t];
        let bytes = regenerate_shard(params, padded.as_slice(), shard_len, index);
        out.push(Shard { index, bytes });
        t = t + 1;
    }
    proof {
        assert forall|data: Seq<u8>|
            data.len() == original_len && (forall|i: int|
                0 <= i < n && #[trigger] shard_verified(shards@, expected_digests@, i)
                    ==> shards@[i]->Some_0.bytes@ == encoded_shards(params, data)[i]) implies forall|
            u: int,
        |
            0 <= u < out@.len() ==> (#[trigger] out@[u]).bytes@ == encoded_shards(
                params,
                data,
            )[missing@[u] as int] by {
            assert(consistent_with(params, verified@, data)) by {
                assert forall|i: int| 0 <= i < verified@.len() implies (#[trigger] verified@[i] matches Some(s)
                    ==> s.bytes@ == encoded_shards(params, data)[i]) by {
                    if verified@[i] is Some {
                        assert(shard_verified(shards@, expected_digests@, i));
                    }
                }
            }
            assert(recovered == data);
            let l = shard_len_for(data.len(), k as nat);
            lemma_first_len(params, verified@, data, first as int);
            assert(shard_len == l);
            assert(data_matrix(padded@, k as nat, l) =~~= data_matrix(data, k as nat, l)) by {
                assert forall|a: int, c: int| 0 <= a < k && 0 <= c < l implies #[trigger] padded_byte(
                    padded@,
                    a * l + c,
                ) == padded_byte(data, a * l + c) by {
                    crate::matrix::lemma_index(a, c, k as int, l as int);
                    assert(k * l == l * k) by (nonlinear_arith);
                    assert(padded@[a * l + c] == padded_byte(recovered, a * l + c));
                }
            }
            assert(encoded_rows_of(params, padded@, shard_len as nat) == encoded_shards(params, data));
            assert forall|u: int| 0 <= u < out@.len() implies (#[trigger] out@[u]).bytes@
                == encoded_shards(params, data)[missing@[u] as int] by {
                assert(out@[u].index == missing@[u]);
            }
        }
    }
    Ok(out)
}

proof fn lemma_first_present(s: Seq<Option<Shard>>, first: nat)
    requires
        first < s.len(),
        s.len() <= usize::MAX,
        s[first as int] is Some,
        present_indices(s, first).len() == 0,
    ensures
        present_indices(s, s.len())[0] == first,
{
    assert(present_indices(s, (first + 1) as nat) =~= seq![first as usize]);
    lemma_prefix_stable(s, (first + 1) as nat, s.len());
}

proof fn lemma_prefix_stable(s: Seq<Option<Shard>>, a: nat, b: nat)
    requires
        a <= b <= s.len(),
        present_indices(s, a).len() > 0,
    ensures
        present_indices(s, b)[0] == present_indices(s, a)[0],
        present_indices(s, b).len() >= present_indices(s, a).len(),
    decreases b - a,
{
    if b > a {
        lemma_prefix_stable(s, a, (b - 1) as nat);
    }
}

proof fn lemma_first_len(params: ErasureParams, shards: Seq<Option<Shard>>, data: Seq<u8>, first: int)
    requires
        params.valid(),
        consistent_with(params, shards, data),
        0 <= first < shards.len(),
        shards[first] is Some,
    ensures
        shard_len_at(shards, first) == shard_len_for(data.len(), params.data_shards as nat),
{
    assert(shards[first] matches Some(s) && s.bytes@ == encoded_shards(params, data)[first]);
}

/// A regenerated shard that equals the original shard at its position
/// passes the integrity check against that position's recorded digest.
pub proof fn lemma_regenerated_shard_verifies(
    params: ErasureParams,
    data: Seq<u8>,
    digests: Seq<[u8; 32]>,
    shard: Shard,
    index: int,
)
    requires
        0 <= index < digests.len(),
        digests[index]@ == blake3_hash(encoded_shards(params, data)[index]),
        shard.bytes@ == encoded_shards(params, data)[index],
    ensures
        blake3_hash(shard.bytes@) == digests[index]@,
{
}

} // verus!
