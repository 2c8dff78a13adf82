//! The genesis manifest: an equal, slowly vesting bootstrap allocation for
//! every eligible human, committed to by a BLAKE3 digest.
use crate::amount::Amount;
use crate::economy_error::EconomyError;
use crate::health::{blake3_hash, digest};
use crate::issuance::{
    canonical_humans, has_repeat_or_empty, is_canonical_order, names, same_members, strictly_sorted,
};
use crate::lexorder::{lemma_encode_injective, lemma_lex_asym, lemma_lex_irrefl, lemma_lex_trans, str_lt};
use crate::scalable_epoch_wire::{
    be128, be64, lemma_be128_round_trip, lemma_be64_round_trip, put_amount, put_slice, put_u64,
};
use vstd::prelude::*;
use vstd::utf8::encode_utf8;

verus! {

#[derive(Debug, Clone, PartialEq, Eq)]
pub struct GenesisPolicy {
    /// Equal slowly-vesting bootstrap allocation for every eligible human,
    /// a governance-bound input never selected here.
    pub bootstrap_per_human: Amount,
    pub vesting_ms: u64,
}

#[derive(Debug, Clone, PartialEq, Eq)]
pub struct GenesisManifest {
    pub chain_id: String,
    pub constitution_digest: [u8; 32],
    pub recipients: Vec<String>,
    pub allocation_per_human: Amount,
    pub total_locked: Amount,
    pub vesting_ms: u64,
    /// BLAKE3 digest of the manifest's committed bytes.
    pub digest: [u8; 32],
}

/// A byte string preceded by its big-endian length.
pub open spec fn length_prefixed(bytes: Seq<u8>) -> Seq<u8> {
    be64(bytes.len() as u64) + bytes
}

/// The recipients' names, each length-prefixed, one after another.
pub open spec fn recipients_bytes(names: Seq<Seq<char>>) -> Seq<u8>
    decreases names.len(),
{
    if names.len() == 0 {
        Seq::empty()
    } else {
        recipients_bytes(names.drop_last()) + length_prefixed(encode_utf8(names.last()))
    }
}

/// The committed bytes of a genesis manifest.
pub open spec fn genesis_bytes(
    chain_id: Seq<char>,
    constitution_digest: Seq<u8>,
    per_human: u128,
    vesting_ms: u64,
    recipients: Seq<Seq<char>>,
) -> Seq<u8> {
    length_prefixed(encode_utf8(chain_id)) + constitution_digest + be128(per_human) + be64(
        vesting_ms,
    ) + be64(recipients.len() as u64) + recipients_bytes(recipients)
}

/// Why a genesis request is refused by its shape, if it is.
pub open spec fn genesis_shape_error(
    chain_id: Seq<char>,
    eligible: Seq<Seq<char>>,
    policy: GenesisPolicy,
) -> Option<EconomyError> {
    if chain_id.len() == 0 || encode_utf8(chain_id).len() > 128 || eligible.len() == 0
        || policy.bootstrap_per_human.micro() == 0 || policy.vesting_ms == 0 {
        Some(EconomyError::InvalidGenesis)
    } else if has_repeat_or_empty(eligible) {
        Some(EconomyError::DuplicateBeneficiary)
    } else if policy.bootstrap_per_human.micro() * eligible.len() > u128::MAX {
        Some(EconomyError::Overflow)
    } else {
        None
    }
}

fn put_bytes(out: &mut Vec<u8>, bytes: &[u8])
    ensures
        final(out)@ == old(out)@ + length_prefixed(bytes@),
{
    put_u64(out, bytes.len() as u64);
    put_slice(out, bytes);
    assert(out@ =~= old(out)@ + length_prefixed(bytes@));
}

/// Build the genesis manifest: every eligible human, once each, in
/// canonical order, receives the same allocation.
pub fn build_genesis(
    chain_id: &str,
    constitution_digest: [u8; 32],
    eligible_humans: &[String],
    policy: &GenesisPolicy,
) -> (r: Result<GenesisManifest, EconomyError>)
    ensures
        match genesis_shape_error(chain_id@, names(eligible_humans@), *policy) {
            Some(e) => r == Err::<GenesisManifest, EconomyError>(e),
            None => r matches Ok(m) && m.chain_id@ == chain_id@ && m.constitution_digest
                == constitution_digest && is_canonical_order(
                names(m.recipients@),
                names(eligible_humans@),
            ) && m.allocation_per_human == policy.bootstrap_per_human && m.total_locked.micro()
                == policy.bootstrap_per_human.micro() * eligible_humans@.len() && m.vesting_ms
                == policy.vesting_ms && m.digest@ == blake3_hash(
                genesis_bytes(
                    chain_id@,
                    constitution_digest@,
                    policy.bootstrap_per_human.micro(),
                    policy.vesting_ms,
                    names(m.recipients@),
                ),
            ),
        },
{
    let chain_bytes = chain_id.as_bytes();
    if chain_id.is_empty() || chain_bytes.len() > 128 || eligible_humans.len() == 0
        || policy.bootstrap_per_human.as_micro() == 0 || policy.vesting_ms == 0 {
        return Err(EconomyError::InvalidGenesis);
    }
    let recipients = match canonical_humans(eligible_humans) {
        Ok(v) => v,
        Err(e) => {
            return Err(e);
        },
    };
    let total = match policy.bootstrap_per_human.as_micro().checked_mul(recipients.len() as u128) {
        Some(t) => Amount::from_micro(t),
        None => {
            return Err(EconomyError::Overflow);
        },
    };
    let mut bytes: Vec<u8> = Vec::new();
    put_bytes(&mut bytes, chain_bytes);
    put_slice(&mut bytes, &constitution_digest);
    put_amount(&mut bytes, policy.bootstrap_per_human);
    put_u64(&mut bytes, policy.vesting_ms);
    put_u64(&mut bytes, recipients.len() as u64);
    let ghost head = bytes@;
    let ghost all = names(recipients@);
    let mut i: usize = 0;
    assert(all.subrange(0, 0) =~= Seq::<Seq<char>>::empty());
    assert(head + recipients_bytes(all.subrange(0, 0)) =~= head);
    while i < recipients.len()
        invariant
            i <= recipients@.len(),
            all == names(recipients@),
            bytes@ == head + recipients_bytes(all.subrange(0, i as int)),
        decreases recipients@.len() - i,
    {
        let name = recipients[i].as_str().as_bytes();
        put_bytes(&mut bytes, name);
        proof {
            let next = all.subrange(0, i + 1);
            assert(next.drop_last() =~= all.subrange(0, i as int));
            assert(next.last() == recipients@[i as int]@);
            assert(bytes@ =~= head + recipients_bytes(next));
        }
        i = i + 1;
    }
    assert(all.subrange(0, i as int) =~= all);
    let digest = digest(bytes.as_slice());
    Ok(
        GenesisManifest {
            chain_id: String::from_str(chain_id),
            constitution_digest,
            recipients,
            allocation_per_human: policy.bootstrap_per_human,
            total_locked: total,
            vesting_ms: policy.vesting_ms,
            digest,
        },
    )
}

/// Two strictly sorted lists of the same names are the same list.
proof fn lemma_sorted_unique(a: Seq<Seq<char>>, b: Seq<Seq<char>>)
    requires
        strictly_sorted(a),
        strictly_sorted(b),
        forall|i: int| 0 <= i < a.len() ==> b.contains(#[trigger] a[i]),
        forall|j: int| 0 <= j < b.len() ==> a.contains(#[trigger] b[j]),
    ensures
        a == b,
    decreases a.len() + b.len(),
{
    if a.len() == 0 {
        if b.len() > 0 {
            assert(a.contains(b[0]));
        }
        assert(a =~= b);
    } else if b.len() == 0 {
        assert(b.contains(a[0]));
    } else {
        assert(b.contains(a[0]));
        assert(a.contains(b[0]));
        let k = choose|k: int| 0 <= k < b.len() && b[k] == a[0];
        let m = choose|m: int| 0 <= m < a.len() && a[m] == b[0];
        if k > 0 {
            assert(str_lt(b[0], b[k]));
            if m > 0 {
                assert(str_lt(a[0], a[m]));
                lemma_lex_asym(encode_utf8(a[0]), encode_utf8(b[0]));
            } else {
                lemma_lex_irrefl(encode_utf8(a[0]));
            }
        }
        assert(a[0] == b[0]);
        let a1 = a.drop_first();
        let b1 = b.drop_first();
        assert forall|i: int| 0 <= i < a1.len() implies b1.contains(#[trigger] a1[i]) by {
            assert(a1[i] == a[i + 1]);
            assert(str_lt(a[0], a[i + 1]));
            assert(b.contains(a[i + 1]));
            let w = choose|w: int| 0 <= w < b.len() && b[w] == a[i + 1];
            if w == 0 {
                lemma_lex_irrefl(encode_utf8(a[0]));
            }
            assert(b1[w - 1] == a1[i]);
        }
        assert forall|j: int| 0 <= j < b1.len() implies a1.contains(#[trigger] b1[j]) by {
            assert(b1[j] == b[j + 1]);
            assert(str_lt(b[0], b[j + 1]));
            assert(a.contains(b[j + 1]));
            let w = choose|w: int| 0 <= w < a.len() && a[w] == b[j + 1];
            if w == 0 {
                lemma_lex_irrefl(encode_utf8(b[0]));
            }
            assert(a1[w - 1] == b1[j]);
        }
        assert forall|i: int, j: int| 0 <= i < j < a1.len() implies str_lt(
            #[trigger] a1[i],
            #[trigger] a1[j],
        ) by {
            assert(a1[i] == a[i + 1] && a1[j] == a[j + 1]);
        }
        assert forall|i: int, j: int| 0 <= i < j < b1.len() implies str_lt(
            #[trigger] b1[i],
            #[trigger] b1[j],
        ) by {
            assert(b1[i] == b[i + 1] && b1[j] == b[j + 1]);
        }
        lemma_sorted_unique(a1, b1);
        assert forall|i: int| 0 <= i < a.len() implies a[i] == b[i] by {
            if i > 0 {
                assert(a[i] == a1[i - 1] && b[i] == b1[i - 1]);
            }
        }
        assert(a =~= b);
    }
}

/// Law: genesis does not depend on the order in which eligible humans are
/// listed. Lists of the same names (each without repeats) put the same
/// recipients in the same canonical order, so the same allocations, total
/// and committed bytes follow.
pub proof fn lemma_genesis_order_independent(
    x: Seq<Seq<char>>,
    y: Seq<Seq<char>>,
    rx: Seq<Seq<char>>,
    ry: Seq<Seq<char>>,
)
    requires
        same_members(x, y),
        is_canonical_order(rx, x),
        is_canonical_order(ry, y),
    ensures
        rx == ry,
        x.len() == y.len(),
{
    assert forall|i: int| 0 <= i < rx.len() implies ry.contains(#[trigger] rx[i]) by {
        assert(x.contains(rx[i]));
        let w = choose|w: int| 0 <= w < x.len() && x[w] == rx[i];
        assert(y.contains(x[w]));
        let v = choose|v: int| 0 <= v < y.len() && y[v] == x[w];
        assert(ry.contains(y[v]));
    }
    assert forall|j: int| 0 <= j < ry.len() implies rx.contains(#[trigger] ry[j]) by {
        assert(y.contains(ry[j]));
        let w = choose|w: int| 0 <= w < y.len() && y[w] == ry[j];
        assert(x.contains(y[w]));
        let v = choose|v: int| 0 <= v < x.len() && x[v] == y[w];
        assert(rx.contains(x[v]));
    }
    lemma_sorted_unique(rx, ry);
}

/// A length-prefixed byte string, and what follows it, are read back from
/// their concatenation.
proof fn lemma_length_prefixed_unique(s1: Seq<u8>, s2: Seq<u8>, x1: Seq<u8>, x2: Seq<u8>)
    requires
        s1.len() <= u64::MAX,
        s2.len() <= u64::MAX,
        length_prefixed(s1) + x1 == length_prefixed(s2) + x2,
    ensures
        s1 == s2,
        x1 == x2,
{
    let t = length_prefixed(s1) + x1;
    lemma_be64_round_trip(s1.len() as u64);
    lemma_be64_round_trip(s2.len() as u64);
    assert(t.subrange(0, 8) =~= be64(s1.len() as u64));
    assert((length_prefixed(s2) + x2).subrange(0, 8) =~= be64(s2.len() as u64));
    assert(s1.len() == s2.len());
    let n = s1.len() as int;
    assert(t.subrange(8, 8 + n) =~= s1);
    assert((length_prefixed(s2) + x2).subrange(8, 8 + n) =~= s2);
    assert(t.skip(8 + n) =~= x1);
    assert((length_prefixed(s2) + x2).skip(8 + n) =~= x2);
}

/// The recipients' bytes begin with the first recipient's.
proof fn lemma_recipients_bytes_first(names: Seq<Seq<char>>)
    requires
        names.len() > 0,
    ensures
        recipients_bytes(names) == length_prefixed(encode_utf8(names[0])) + recipients_bytes(
            names.drop_first(),
        ),
    decreases names.len(),
{
    if names.len() == 1 {
        assert(names.drop_last() =~= Seq::<Seq<char>>::empty());
        assert(names.drop_first() =~= Seq::<Seq<char>>::empty());
        assert(recipients_bytes(names) =~= length_prefixed(encode_utf8(names[0])));
        assert(recipients_bytes(Seq::<Seq<char>>::empty()) =~= Seq::<u8>::empty());
        assert(length_prefixed(encode_utf8(names[0])) + Seq::<u8>::empty() =~= length_prefixed(
            encode_utf8(names[0]),
        ));
    } else {
        let init = names.drop_last();
        lemma_recipients_bytes_first(init);
        assert(init.drop_first() =~= names.drop_first().drop_last());
        assert(names.drop_first().last() == names.last());
        assert(init[0] == names[0]);
        assert(recipients_bytes(names) =~= length_prefixed(encode_utf8(names[0]))
            + recipients_bytes(names.drop_first()));
    }
}

/// Every name's UTF-8 length fits a 64-bit length field.
pub open spec fn names_encodable(names: Seq<Seq<char>>) -> bool {
    forall|i: int| 0 <= i < names.len() ==> encode_utf8(#[trigger] names[i]).len() <= u64::MAX
}

/// Two equally long recipient lists whose bytes begin the same byte string
/// are the same list, followed by the same bytes.
proof fn lemma_recipients_bytes_unique(
    a: Seq<Seq<char>>,
    b: Seq<Seq<char>>,
    x: Seq<u8>,
    y: Seq<u8>,
)
    requires
        a.len() == b.len(),
        names_encodable(a),
        names_encodable(b),
        recipients_bytes(a) + x == recipients_bytes(b) + y,
    ensures
        a == b,
        x == y,
    decreases a.len(),
{
    if a.len() == 0 {
        assert(recipients_bytes(a) =~= Seq::<u8>::empty());
        assert(recipients_bytes(b) =~= Seq::<u8>::empty());
        assert(x =~= recipients_bytes(a) + x);
        assert(y =~= recipients_bytes(b) + y);
        assert(a =~= b);
    } else {
        let a1 = a.drop_first();
        let b1 = b.drop_first();
        lemma_recipients_bytes_first(a);
        lemma_recipients_bytes_first(b);
        assert(recipients_bytes(a) + x =~= length_prefixed(encode_utf8(a[0])) + (recipients_bytes(
            a1,
        ) + x));
        assert(recipients_bytes(b) + y =~= length_prefixed(encode_utf8(b[0])) + (recipients_bytes(
            b1,
        ) + y));
        assert(encode_utf8(a[0]).len() <= u64::MAX);
        assert(encode_utf8(b[0]).len() <= u64::MAX);
        lemma_length_prefixed_unique(
            encode_utf8(a[0]),
            encode_utf8(b[0]),
            recipients_bytes(a1) + x,
            recipients_bytes(b1) + y,
        );
        lemma_encode_injective(a[0], b[0]);
        assert forall|i: int| 0 <= i < a1.len() implies encode_utf8(#[trigger] a1[i]).len()
            <= u64::MAX by {
            assert(a1[i] == a[i + 1]);
        }
        assert forall|i: int| 0 <= i < b1.len() implies encode_utf8(#[trigger] b1[i]).len()
            <= u64::MAX by {
            assert(b1[i] == b[i + 1]);
        }
        lemma_recipients_bytes_unique(a1, b1, x, y);
        assert forall|i: int| 0 <= i < a.len() implies a[i] == b[i] by {
            if i > 0 {
                assert(a[i] == a1[i - 1] && b[i] == b1[i - 1]);
            }
        }
        assert(a =~= b);
    }
}

/// Law: the committed bytes of a genesis manifest, and so its digest's
/// input, determine every field they commit to: the chain id, the
/// constitution digest, the allocation per human, the vesting period and
/// the recipients in order. Two manifests that differ in any of these
/// commit to different bytes. The only condition is that each length fits
/// its 64-bit length field, as it does for everything held in memory.
pub proof fn lemma_genesis_bytes_injective(
    c1: Seq<char>,
    d1: Seq<u8>,
    p1: u128,
    v1: u64,
    r1: Seq<Seq<char>>,
    c2: Seq<char>,
    d2: Seq<u8>,
    p2: u128,
    v2: u64,
    r2: Seq<Seq<char>>,
)
    requires
        d1.len() == 32,
        d2.len() == 32,
        encode_utf8(c1).len() <= u64::MAX,
        encode_utf8(c2).len() <= u64::MAX,
        r1.len() <= u64::MAX,
        r2.len() <= u64::MAX,
        names_encodable(r1),
        names_encodable(r2),
        genesis_bytes(c1, d1, p1, v1, r1) == genesis_bytes(c2, d2, p2, v2, r2),
    ensures
        c1 == c2,
        d1 == d2,
        p1 == p2,
        v1 == v2,
        r1 == r2,
{
    let rest1 = d1 + be128(p1) + be64(v1) + be64(r1.len() as u64) + recipients_bytes(r1);
    let rest2 = d2 + be128(p2) + be64(v2) + be64(r2.len() as u64) + recipients_bytes(r2);
    assert(genesis_bytes(c1, d1, p1, v1, r1) =~= length_prefixed(encode_utf8(c1)) + rest1);
    assert(genesis_bytes(c2, d2, p2, v2, r2) =~= length_prefixed(encode_utf8(c2)) + rest2);
    lemma_length_prefixed_unique(encode_utf8(c1), encode_utf8(c2), rest1, rest2);
    lemma_encode_injective(c1, c2);
    lemma_be128_round_trip(p1);
    lemma_be128_round_trip(p2);
    lemma_be64_round_trip(v1);
    lemma_be64_round_trip(v2);
    lemma_be64_round_trip(r1.len() as u64);
    lemma_be64_round_trip(r2.len() as u64);
    assert(rest1.subrange(0, 32) =~= d1);
    assert(rest2.subrange(0, 32) =~= d2);
    assert(rest1.subrange(32, 48) =~= be128(p1));
    assert(rest2.subrange(32, 48) =~= be128(p2));
    assert(rest1.subrange(48, 56) =~= be64(v1));
    assert(rest2.subrange(48, 56) =~= be64(v2));
    assert(rest1.subrange(56, 64) =~= be64(r1.len() as u64));
    assert(rest2.subrange(56, 64) =~= be64(r2.len() as u64));
    assert(rest1.skip(64) =~= recipients_bytes(r1) + Seq::<u8>::empty());
    assert(rest2.skip(64) =~= recipients_bytes(r2) + Seq::<u8>::empty());
    lemma_recipients_bytes_unique(r1, r2, Seq::<u8>::empty(), Seq::<u8>::empty());
}

/// Law: where each field lies in the committed genesis bytes: the chain
/// id's UTF-8 length as 8 big-endian bytes, the chain id, the 32-byte
/// constitution digest, the allocation per human as 16 big-endian bytes,
/// the vesting period as 8 big-endian bytes, the recipient count as 8
/// big-endian bytes, and then the recipients, each as its UTF-8 length in
/// 8 big-endian bytes followed by its UTF-8, in order.
pub proof fn lemma_genesis_bytes_layout(
    chain_id: Seq<char>,
    constitution_digest: Seq<u8>,
    per_human: u128,
    vesting_ms: u64,
    recipients: Seq<Seq<char>>,
)
    requires
        constitution_digest.len() == 32,
    ensures
        ({
            let b = genesis_bytes(chain_id, constitution_digest, per_human, vesting_ms, recipients);
            let c = encode_utf8(chain_id);
            let n = c.len() as int;
            &&& b.subrange(0, 8) == be64(n as u64)
            &&& b.subrange(8, 8 + n) == c
            &&& b.subrange(8 + n, 40 + n) == constitution_digest
            &&& b.subrange(40 + n, 56 + n) == be128(per_human)
            &&& b.subrange(56 + n, 64 + n) == be64(vesting_ms)
            &&& b.subrange(64 + n, 72 + n) == be64(recipients.len() as u64)
            &&& recipients.len() > 0 ==> b.skip(72 + n) == length_prefixed(encode_utf8(recipients[0]))
                + recipients_bytes(recipients.drop_first())
            &&& recipients.len() == 0 ==> b.len() == 72 + n
        }),
{
    let b = genesis_bytes(chain_id, constitution_digest, per_human, vesting_ms, recipients);
    let c = encode_utf8(chain_id);
    let n = c.len() as int;
    lemma_be64_round_trip(n as u64);
    lemma_be128_round_trip(per_human);
    lemma_be64_round_trip(vesting_ms);
    lemma_be64_round_trip(recipients.len() as u64);
    assert(b.subrange(0, 8) =~= be64(n as u64));
    assert(b.subrange(8, 8 + n) =~= c);
    assert(b.subrange(8 + n, 40 + n) =~= constitution_digest);
    assert(b.subrange(40 + n, 56 + n) =~= be128(per_human));
    assert(b.subrange(56 + n, 64 + n) =~= be64(vesting_ms));
    assert(b.subrange(64 + n, 72 + n) =~= be64(recipients.len() as u64));
    assert(b.skip(72 + n) =~= recipients_bytes(recipients));
    if recipients.len() > 0 {
        lemma_recipients_bytes_first(recipients);
    } else {
        assert(recipients_bytes(recipients) =~= Seq::<u8>::empty());
    }
}

} // verus!
