//! Canonical, bounded encoding for finalized scalable monetary epoch plans.
//!
//! Consensus carries the exact plan it finalizes, so the encoding represents
//! every field, is checked against hard limits before anything is built, and
//! decoding accepts only the canonical bytes of some plan.
use crate::amount::Amount;
use crate::economy_error::EconomyError;
use crate::issuance::{
    grant_views, Channel, GrantView, HumanSharePlan, HumanSnapshot, ScalableEpochPlan, VestingGrant,
};
use crate::ledger::plans_agree;
use vstd::prelude::*;
use vstd::slice::slice_to_vec;
use vstd::utf8::{decode_utf8, encode_utf8, encode_utf8_decode_utf8, encode_utf8_valid_utf8, valid_utf8};

verus! {

/// Hard ceiling on optional service and treasury grants in one epoch.
pub const MAX_SCALABLE_EPOCH_GRANTS: usize = 1_024;

/// Hard UTF-8 byte ceiling for one grant beneficiary identifier.
pub const MAX_EPOCH_BENEFICIARY_BYTES: usize = 1_024;

/// Maximum standalone encoded epoch plan.
pub const MAX_SCALABLE_EPOCH_PLAN_BYTES: usize = 2 * 1024 * 1024;

/// Byte length of the fixed-size part of an encoded plan.
pub const WIRE_HEADER_BYTES: usize = 296;

/// Big-endian bytes of a `u64`.
pub open spec fn be64(v: u64) -> Seq<u8> {
    seq![
        (v >> 56u64) as u8,
        (v >> 48u64) as u8,
        (v >> 40u64) as u8,
        (v >> 32u64) as u8,
        (v >> 24u64) as u8,
        (v >> 16u64) as u8,
        (v >> 8u64) as u8,
        v as u8,
    ]
}

/// Big-endian bytes of a `u128`.
pub open spec fn be128(v: u128) -> Seq<u8> {
    seq![
        (v >> 120u128) as u8,
        (v >> 112u128) as u8,
        (v >> 104u128) as u8,
        (v >> 96u128) as u8,
        (v >> 88u128) as u8,
        (v >> 80u128) as u8,
        (v >> 72u128) as u8,
        (v >> 64u128) as u8,
        (v >> 56u128) as u8,
        (v >> 48u128) as u8,
        (v >> 40u128) as u8,
        (v >> 32u128) as u8,
        (v >> 24u128) as u8,
        (v >> 16u128) as u8,
        (v >> 8u128) as u8,
        v as u8,
    ]
}

/// The `u64` whose big-endian bytes are the eight bytes of `s`.
pub open spec fn be64_value(s: Seq<u8>) -> u64 {
    (s[0] as u64) << 56u64 | (s[1] as u64) << 48u64 | (s[2] as u64) << 40u64 | (s[3] as u64)
        << 32u64 | (s[4] as u64) << 24u64 | (s[5] as u64) << 16u64 | (s[6] as u64) << 8u64
        | (s[7] as u64)
}

/// The `u128` whose big-endian bytes are the sixteen bytes of `s`.
pub open spec fn be128_value(s: Seq<u8>) -> u128 {
    (s[0] as u128) << 120u128 | (s[1] as u128) << 112u128 | (s[2] as u128) << 104u128 | (
    s[3] as u128) << 96u128 | (s[4] as u128) << 88u128 | (s[5] as u128) << 80u128 | (
    s[6] as u128) << 72u128 | (s[7] as u128) << 64u128 | (s[8] as u128) << 56u128 | (
    s[9] as u128) << 48u128 | (s[10] as u128) << 40u128 | (s[11] as u128) << 32u128 | (
    s[12] as u128) << 24u128 | (s[13] as u128) << 16u128 | (s[14] as u128) << 8u128 | (
    s[15] as u128)
}

/// Reading back the bytes of a `u64` gives the `u64`.
pub proof fn lemma_be64_round_trip(v: u64)
    ensures
        be64(v).len() == 8,
        be64_value(be64(v)) == v,
{
    let s = be64(v);
    assert(s[0] == (v >> 56u64) as u8 && s[1] == (v >> 48u64) as u8 && s[2] == (v >> 40u64) as u8
        && s[3] == (v >> 32u64) as u8 && s[4] == (v >> 24u64) as u8 && s[5] == (v >> 16u64) as u8
        && s[6] == (v >> 8u64) as u8 && s[7] == v as u8);
    assert((((v >> 56u64) as u8) as u64) << 56u64 | (((v >> 48u64) as u8) as u64) << 48u64 | (((v
        >> 40u64) as u8) as u64) << 40u64 | (((v >> 32u64) as u8) as u64) << 32u64 | (((v
        >> 24u64) as u8) as u64) << 24u64 | (((v >> 16u64) as u8) as u64) << 16u64 | (((v
        >> 8u64) as u8) as u64) << 8u64 | ((v as u8) as u64) == v) by (bit_vector);
}

/// Reading back the bytes of a `u128` gives the `u128`.
pub proof fn lemma_be128_round_trip(v: u128)
    ensures
        be128(v).len() == 16,
        be128_value(be128(v)) == v,
{
    let s = be128(v);
    assert(s[0] == (v >> 120u128) as u8 && s[1] == (v >> 112u128) as u8 && s[2] == (v
        >> 104u128) as u8 && s[3] == (v >> 96u128) as u8 && s[4] == (v >> 88u128) as u8 && s[5]
        == (v >> 80u128) as u8 && s[6] == (v >> 72u128) as u8 && s[7] == (v >> 64u128) as u8
        && s[8] == (v >> 56u128) as u8 && s[9] == (v >> 48u128) as u8 && s[10] == (v
        >> 40u128) as u8 && s[11] == (v >> 32u128) as u8 && s[12] == (v >> 24u128) as u8
        && s[13] == (v >> 16u128) as u8 && s[14] == (v >> 8u128) as u8 && s[15] == v as u8);
    assert((((v >> 120u128) as u8) as u128) << 120u128 | (((v >> 112u128) as u8) as u128)
        << 112u128 | (((v >> 104u128) as u8) as u128) << 104u128 | (((v >> 96u128) as u8) as u128)
        << 96u128 | (((v >> 88u128) as u8) as u128) << 88u128 | (((v >> 80u128) as u8) as u128)
        << 80u128 | (((v >> 72u128) as u8) as u128) << 72u128 | (((v >> 64u128) as u8) as u128)
        << 64u128 | (((v >> 56u128) as u8) as u128) << 56u128 | (((v >> 48u128) as u8) as u128)
        << 48u128 | (((v >> 40u128) as u8) as u128) << 40u128 | (((v >> 32u128) as u8) as u128)
        << 32u128 | (((v >> 24u128) as u8) as u128) << 24u128 | (((v >> 16u128) as u8) as u128)
        << 16u128 | (((v >> 8u128) as u8) as u128) << 8u128 | ((v as u8) as u128) == v)
        by (bit_vector);
}

/// The domain tag that opens every encoded plan:
/// `mini-economy/scalable-epoch-plan-wire/v1` in ASCII.
pub open spec fn wire_domain() -> Seq<u8> {
    seq![109, 105, 110, 105, 45, 101, 99, 111, 110, 111, 109, 121, 47, 115, 99, 97, 108, 97, 98, 108, 101, 45, 101, 112, 111, 99, 104, 45, 112, 108, 97, 110, 45, 119, 105, 114, 101, 47, 118, 49]
}

fn domain_tag() -> (d: [u8; 40])
    ensures
        d@ == wire_domain(),
{
    let d: [u8; 40] = [109, 105, 110, 105, 45, 101, 99, 111, 110, 111, 109, 121, 47, 115, 99, 97, 108, 97, 98, 108, 101, 45, 101, 112, 111, 99, 104, 45, 112, 108, 97, 110, 45, 119, 105, 114, 101, 47, 118, 49];
    assert(d@ =~= wire_domain());
    d
}

/// The byte that stands for a channel.
pub open spec fn channel_tag(channel: Channel) -> u8 {
    match channel {
        Channel::HumanShare => 0,
        Channel::Service => 1,
        Channel::TreasuryContribution => 2,
    }
}

/// The encoded fixed-size part of a plan, ending with the grant count.
#[verifier::opaque]
pub open spec fn header_bytes(p: ScalableEpochPlan) -> Seq<u8> {
    wire_domain() + be64(p.epoch) + be64(p.duration_ms) + be128(p.opening_circulating.micro())
        + be64(p.human.epoch) + p.human.snapshot.root@ + be64(p.human.snapshot.eligible_count)
        + be128(p.human.cap.micro()) + be128(p.human.per_human.micro()) + be128(
        p.human.issued.micro(),
    ) + be128(p.human.unissued_remainder.micro()) + be64(p.human.vesting_ms) + be128(
        p.service_cap.micro(),
    ) + be128(p.treasury_cap.micro()) + be128(p.total_cap.micro()) + be128(
        p.service_issued.micro(),
    ) + be128(p.treasury_issued.micro()) + be128(p.total_issued.micro()) + be64(
        p.optional_grants@.len() as u64,
    )
}

/// One encoded grant: the beneficiary's UTF-8 length and bytes, the channel
/// byte, the amount and the vesting period.
pub open spec fn grant_bytes(g: GrantView) -> Seq<u8> {
    be64(encode_utf8(g.beneficiary).len() as u64) + encode_utf8(g.beneficiary) + seq![
        channel_tag(g.channel),
    ] + be128(g.amount) + be64(g.vesting_ms)
}

/// The grants encoded one after another.
pub open spec fn grants_bytes(gs: Seq<GrantView>) -> Seq<u8>
    decreases gs.len(),
{
    if gs.len() == 0 {
        Seq::empty()
    } else {
        grant_bytes(gs[0]) + grants_bytes(gs.drop_first())
    }
}

/// The canonical bytes of a plan.
pub open spec fn plan_bytes(p: ScalableEpochPlan) -> Seq<u8> {
    header_bytes(p) + grants_bytes(grant_views(p.optional_grants@))
}

/// A grant whose beneficiary is nonempty and fits the byte ceiling.
pub open spec fn grant_within_limits(g: GrantView) -> bool {
    g.beneficiary.len() != 0 && encode_utf8(g.beneficiary).len() <= MAX_EPOCH_BENEFICIARY_BYTES
}

/// A plan that may cross the wire: bounded grant count, bounded
/// beneficiaries and bounded total size.
pub open spec fn plan_within_limits(p: ScalableEpochPlan) -> bool {
    &&& p.optional_grants@.len() <= MAX_SCALABLE_EPOCH_GRANTS
    &&& forall|i: int|
        0 <= i < p.optional_grants@.len() ==> grant_within_limits(
            #[trigger] grant_views(p.optional_grants@)[i],
        )
    &&& plan_bytes(p).len() <= MAX_SCALABLE_EPOCH_PLAN_BYTES
}

/// A grant whose name's UTF-8 length fits the 64-bit length field.
pub open spec fn grant_encodable(g: GrantView) -> bool {
    encode_utf8(g.beneficiary).len() <= u64::MAX
}

/// A plan whose every length fits its 64-bit length field, as holds of
/// every plan that a machine can hold in memory.
pub open spec fn plan_encodable(p: ScalableEpochPlan) -> bool {
    forall|i: int|
        0 <= i < p.optional_grants@.len() ==> grant_encodable(
            #[trigger] grant_views(p.optional_grants@)[i],
        )
}

/// The encoding of the first `n` grants followed by that of the next one.
pub(crate) proof fn lemma_grants_bytes_push(gs: Seq<GrantView>, n: int)
    requires
        0 <= n < gs.len(),
    ensures
        grants_bytes(gs.take(n + 1)) == grants_bytes(gs.take(n)) + grant_bytes(gs[n]),
    decreases n,
{
    if n == 0 {
        assert(gs.take(1).drop_first() =~= Seq::<GrantView>::empty());
        assert(grants_bytes(Seq::<GrantView>::empty()) =~= Seq::<u8>::empty());
        assert(gs.take(1)[0] == gs[0]);
        assert(gs.take(0) =~= Seq::<GrantView>::empty());
        assert(grants_bytes(gs.take(1)) =~= grant_bytes(gs[0]) + Seq::<u8>::empty());
        assert(grants_bytes(gs.take(0)) + grant_bytes(gs[0]) =~= grant_bytes(gs[0]));
    } else {
        let rest = gs.drop_first();
        lemma_grants_bytes_push(rest, n - 1);
        assert(gs.take(n + 1).drop_first() =~= rest.take(n));
        assert(gs.take(n).drop_first() =~= rest.take(n - 1));
        assert(gs.take(n + 1)[0] == gs[0]);
        assert(gs.take(n)[0] == gs[0]);
        assert(rest[n - 1] == gs[n]);
        assert(grants_bytes(gs.take(n + 1)) =~= grant_bytes(gs[0]) + grants_bytes(rest.take(n)));
        assert(grants_bytes(gs.take(n)) =~= grant_bytes(gs[0]) + grants_bytes(rest.take(n - 1)));
        assert(grant_bytes(gs[0]) + (grants_bytes(rest.take(n - 1)) + grant_bytes(gs[n]))
            =~= grant_bytes(gs[0]) + grants_bytes(rest.take(n - 1)) + grant_bytes(gs[n]));
    }
}

/// Where each field lies in the encoded fixed-size part of a plan.
proof fn lemma_header_fields(p: ScalableEpochPlan)
    ensures
        header_bytes(p).len() == WIRE_HEADER_BYTES,
        header_bytes(p).subrange(0, 40) == wire_domain(),
        header_bytes(p).subrange(40, 48) == be64(p.epoch),
        header_bytes(p).subrange(48, 56) == be64(p.duration_ms),
        header_bytes(p).subrange(56, 72) == be128(p.opening_circulating.micro()),
        header_bytes(p).subrange(72, 80) == be64(p.human.epoch),
        header_bytes(p).subrange(80, 112) == p.human.snapshot.root@,
        header_bytes(p).subrange(112, 120) == be64(p.human.snapshot.eligible_count),
        header_bytes(p).subrange(120, 136) == be128(p.human.cap.micro()),
        header_bytes(p).subrange(136, 152) == be128(p.human.per_human.micro()),
        header_bytes(p).subrange(152, 168) == be128(p.human.issued.micro()),
        header_bytes(p).subrange(168, 184) == be128(p.human.unissued_remainder.micro()),
        header_bytes(p).subrange(184, 192) == be64(p.human.vesting_ms),
        header_bytes(p).subrange(192, 208) == be128(p.service_cap.micro()),
        header_bytes(p).subrange(208, 224) == be128(p.treasury_cap.micro()),
        header_bytes(p).subrange(224, 240) == be128(p.total_cap.micro()),
        header_bytes(p).subrange(240, 256) == be128(p.service_issued.micro()),
        header_bytes(p).subrange(256, 272) == be128(p.treasury_issued.micro()),
        header_bytes(p).subrange(272, 288) == be128(p.total_issued.micro()),
        header_bytes(p).subrange(288, 296) == be64(p.optional_grants@.len() as u64),
{
    reveal(header_bytes);
    let h = header_bytes(p);
    assert(h.len() == 296);
    assert(h.subrange(0, 40) =~= wire_domain());
    assert(h.subrange(40, 48) =~= be64(p.epoch));
    assert(h.subrange(48, 56) =~= be64(p.duration_ms));
    assert(h.subrange(56, 72) =~= be128(p.opening_circulating.micro()));
    assert(h.subrange(72, 80) =~= be64(p.human.epoch));
    assert(h.subrange(80, 112) =~= p.human.snapshot.root@);
    assert(h.subrange(112, 120) =~= be64(p.human.snapshot.eligible_count));
    assert(h.subrange(120, 136) =~= be128(p.human.cap.micro()));
    assert(h.subrange(136, 152) =~= be128(p.human.per_human.micro()));
    assert(h.subrange(152, 168) =~= be128(p.human.issued.micro()));
    assert(h.subrange(168, 184) =~= be128(p.human.unissued_remainder.micro()));
    assert(h.subrange(184, 192) =~= be64(p.human.vesting_ms));
    assert(h.subrange(192, 208) =~= be128(p.service_cap.micro()));
    assert(h.subrange(208, 224) =~= be128(p.treasury_cap.micro()));
    assert(h.subrange(224, 240) =~= be128(p.total_cap.micro()));
    assert(h.subrange(240, 256) =~= be128(p.service_issued.micro()));
    assert(h.subrange(256, 272) =~= be128(p.treasury_issued.micro()));
    assert(h.subrange(272, 288) =~= be128(p.total_issued.micro()));
    assert(h.subrange(288, 296) =~= be64(p.optional_grants@.len() as u64));
}

/// Appends each grant: the beneficiary's UTF-8 length and bytes, the
/// channel byte, the amount and the vesting period.
pub(crate) fn put_grants(out: &mut Vec<u8>, grants: &Vec<VestingGrant>)
    ensures
        final(out)@ == old(out)@ + grants_bytes(grant_views(grants@)),
{
    let ghost start = out@;
    let ghost views = grant_views(grants@);
    let mut i: usize = 0;
    assert(views.take(0) =~= Seq::<GrantView>::empty());
    assert(start + grants_bytes(views.take(0)) =~= start);
    while i < grants.len()
        invariant
            i <= grants@.len(),
            views == grant_views(grants@),
            out@ == start + grants_bytes(views.take(i as int)),
        decreases grants@.len() - i,
    {
        let grant = &grants[i];
        let name = grant.beneficiary.as_str().as_bytes();
        put_u64(out, name.len() as u64);
        put_slice(out, name);
        out.push(match grant.channel {
            Channel::HumanShare => 0u8,
            Channel::Service => 1u8,
            Channel::TreasuryContribution => 2u8,
        });
        put_amount(out, grant.amount);
        put_u64(out, grant.vesting_ms);
        proof {
            lemma_grants_bytes_push(views, i as int);
            assert(views[i as int] == grant@);
            assert(out@ =~= start + grants_bytes(views.take(i as int)) + grant_bytes(grant@));
        }
        i = i + 1;
    }
    assert(views.take(i as int) =~= views);
}

impl ScalableEpochPlan {
    /// Exact versioned bytes that represent every field of the plan,
    /// including the nested human epoch and vesting duration.
    pub fn canonical_bytes(&self) -> (out: Vec<u8>)
        ensures
            out@ == plan_bytes(*self),
    {
        let mut out: Vec<u8> = Vec::new();
        let domain = domain_tag();
        put_slice(&mut out, &domain);
        put_u64(&mut out, self.epoch);
        put_u64(&mut out, self.duration_ms);
        put_amount(&mut out, self.opening_circulating);
        put_u64(&mut out, self.human.epoch);
        put_slice(&mut out, &self.human.snapshot.root);
        put_u64(&mut out, self.human.snapshot.eligible_count);
        put_amount(&mut out, self.human.cap);
        put_amount(&mut out, self.human.per_human);
        put_amount(&mut out, self.human.issued);
        put_amount(&mut out, self.human.unissued_remainder);
        put_u64(&mut out, self.human.vesting_ms);
        put_amount(&mut out, self.service_cap);
        put_amount(&mut out, self.treasury_cap);
        put_amount(&mut out, self.total_cap);
        put_amount(&mut out, self.service_issued);
        put_amount(&mut out, self.treasury_issued);
        put_amount(&mut out, self.total_issued);
        put_u64(&mut out, self.optional_grants.len() as u64);
        assert(out@ == header_bytes(*self)) by {
            reveal(header_bytes);
        }
        put_grants(&mut out, &self.optional_grants);
        out
    }
}

pub(crate) fn put_u64(out: &mut Vec<u8>, value: u64)
    ensures
        final(out)@ == old(out)@ + be64(value),
{
    out.push((value >> 56u64) as u8);
    out.push((value >> 48u64) as u8);
    out.push((value >> 40u64) as u8);
    out.push((value >> 32u64) as u8);
    out.push((value >> 24u64) as u8);
    out.push((value >> 16u64) as u8);
    out.push((value >> 8u64) as u8);
    out.push(value as u8);
    assert(out@ =~= old(out)@ + be64(value));
}

pub(crate) fn put_amount(out: &mut Vec<u8>, amount: Amount)
    ensures
        final(out)@ == old(out)@ + be128(amount.micro()),
{
    put_u128(out, amount.as_micro());
}

pub(crate) fn put_u128(out: &mut Vec<u8>, value: u128)
    ensures
        final(out)@ == old(out)@ + be128(value),
{
    out.push((value >> 120u128) as u8);
    out.push((value >> 112u128) as u8);
    out.push((value >> 104u128) as u8);
    out.push((value >> 96u128) as u8);
    out.push((value >> 88u128) as u8);
    out.push((value >> 80u128) as u8);
    out.push((value >> 72u128) as u8);
    out.push((value >> 64u128) as u8);
    out.push((value >> 56u128) as u8);
    out.push((value >> 48u128) as u8);
    out.push((value >> 40u128) as u8);
    out.push((value >> 32u128) as u8);
    out.push((value >> 24u128) as u8);
    out.push((value >> 16u128) as u8);
    out.push((value >> 8u128) as u8);
    out.push(value as u8);
    assert(out@ =~= old(out)@ + be128(value));
}

pub(crate) fn put_slice(out: &mut Vec<u8>, bytes: &[u8])
    ensures
        final(out)@ == old(out)@ + bytes@,
{
    let mut i: usize = 0;
    while i < bytes.len()
        invariant
            i <= bytes@.len(),
            out@ == old(out)@ + bytes@.subrange(0, i as int),
        decreases bytes@.len() - i,
    {
        out.push(bytes[i]);
        i = i + 1;
        assert(out@ =~= old(out)@ + bytes@.subrange(0, i as int));
    }
    assert(bytes@.subrange(0, i as int) =~= bytes@);
}

pub(crate) fn read_u64(s: &[u8]) -> (v: u64)
    requires
        s@.len() == 8,
    ensures
        v == be64_value(s@),
{
    (s[0] as u64) << 56u64 | (s[1] as u64) << 48u64 | (s[2] as u64) << 40u64 | (s[3] as u64)
        << 32u64 | (s[4] as u64) << 24u64 | (s[5] as u64) << 16u64 | (s[6] as u64) << 8u64
        | (s[7] as u64)
}

fn read_u128(s: &[u8]) -> (v: u128)
    requires
        s@.len() == 16,
    ensures
        v == be128_value(s@),
{
    (s[0] as u128) << 120u128 | (s[1] as u128) << 112u128 | (s[2] as u128) << 104u128 | (
    s[3] as u128) << 96u128 | (s[4] as u128) << 88u128 | (s[5] as u128) << 80u128 | (
    s[6] as u128) << 72u128 | (s[7] as u128) << 64u128 | (s[8] as u128) << 56u128 | (
    s[9] as u128) << 48u128 | (s[10] as u128) << 40u128 | (s[11] as u128) << 32u128 | (
    s[12] as u128) << 24u128 | (s[13] as u128) << 16u128 | (s[14] as u128) << 8u128 | (
    s[15] as u128)
}

impl ScalableEpochPlan {
    /// Bounded canonical bytes suitable for an untrusted wire boundary.
    pub fn to_wire_bytes(&self) -> (r: Result<Vec<u8>, EconomyError>)
        ensures
            plan_within_limits(*self) ==> (r matches Ok(b) && b@ == plan_bytes(*self)),
            !plan_within_limits(*self) ==> r == Err::<Vec<u8>, EconomyError>(
                EconomyError::LimitExceeded,
            ),
    {
        let ghost views = grant_views(self.optional_grants@);
        if self.optional_grants.len() > MAX_SCALABLE_EPOCH_GRANTS {
            return Err(EconomyError::LimitExceeded);
        }
        let mut i: usize = 0;
        while i < self.optional_grants.len()
            invariant
                i <= self.optional_grants@.len(),
                views == grant_views(self.optional_grants@),
                forall|j: int| 0 <= j < i ==> grant_within_limits(#[trigger] views[j]),
            decreases self.optional_grants@.len() - i,
        {
            let grant = &self.optional_grants[i];
            assert(views[i as int] == grant@);
            let name = grant.beneficiary.as_str().as_bytes();
            if grant.beneficiary.as_str().is_empty() || name.len() > MAX_EPOCH_BENEFICIARY_BYTES {
                return Err(EconomyError::LimitExceeded);
            }
            i = i + 1;
        }
        let bytes = self.canonical_bytes();
        if bytes.len() > MAX_SCALABLE_EPOCH_PLAN_BYTES {
            return Err(EconomyError::LimitExceeded);
        }
        Ok(bytes)
    }
}

/// A cursor over untrusted bytes.
struct Reader<'a> {
    bytes: &'a [u8],
    position: usize,
}

impl<'a> Reader<'a> {
    spec fn wf(&self) -> bool {
        self.position <= self.bytes@.len()
    }

    /// The bytes not yet read.
    spec fn rest(&self) -> Seq<u8> {
        self.bytes@.subrange(self.position as int, self.bytes@.len() as int)
    }

    fn new(bytes: &'a [u8]) -> (r: Self)
        ensures
            r.wf(),
            r.bytes@ == bytes@,
            r.position == 0,
            r.rest() == bytes@,
    {
        let r = Reader { bytes, position: 0 };
        assert(r.rest() =~= bytes@);
        r
    }

    fn take(&mut self, length: usize) -> (r: Result<&'a [u8], EconomyError>)
        requires
            old(self).wf(),
        ensures
            final(self).wf(),
            final(self).bytes@ == old(self).bytes@,
            old(self).position + length <= old(self).bytes@.len() ==> (r matches Ok(v) && v@
                == old(self).bytes@.subrange(
                old(self).position as int,
                old(self).position + length,
            ) && final(self).position == old(self).position + length),
            old(self).position + length > old(self).bytes@.len() ==> r == Err::<
                &'a [u8],
                EconomyError,
            >(EconomyError::MalformedEncoding),
    {
        let available = self.bytes.len();
        let end = match self.position.checked_add(length) {
            Some(e) => e,
            None => {
                return Err(EconomyError::MalformedEncoding);
            },
        };
        if end > available {
            return Err(EconomyError::MalformedEncoding);
        }
        let value = vstd::slice::slice_subrange(self.bytes, self.position, end);
        self.position = end;
        Ok(value)
    }

    fn u8(&mut self) -> (r: Result<u8, EconomyError>)
        requires
            old(self).wf(),
        ensures
            final(self).wf(),
            final(self).bytes@ == old(self).bytes@,
            old(self).position + 1 <= old(self).bytes@.len() ==> (r matches Ok(v) && v == old(self).bytes@[old(self).position as int]
                && final(self).position == old(self).position + 1),
            old(self).position + 1 > old(self).bytes@.len() ==> r == Err::<u8, EconomyError>(
                EconomyError::MalformedEncoding,
            ),
    {
        match self.take(1) {
            Ok(v) => Ok(v[0]),
            Err(e) => Err(e),
        }
    }

    fn u64(&mut self) -> (r: Result<u64, EconomyError>)
        requires
            old(self).wf(),
        ensures
            final(self).wf(),
            final(self).bytes@ == old(self).bytes@,
            old(self).position + 8 <= old(self).bytes@.len() ==> (r matches Ok(v) && v == be64_value(old(self).bytes@.subrange(old(self).position as int, old(self).position + 8))
                && final(self).position == old(self).position + 8),
            old(self).position + 8 > old(self).bytes@.len() ==> r == Err::<u64, EconomyError>(
                EconomyError::MalformedEncoding,
            ),
    {
        match self.take(8) {
            Ok(v) => Ok(read_u64(v)),
            Err(e) => Err(e),
        }
    }

    fn amount(&mut self) -> (r: Result<Amount, EconomyError>)
        requires
            old(self).wf(),
        ensures
            final(self).wf(),
            final(self).bytes@ == old(self).bytes@,
            old(self).position + 16 <= old(self).bytes@.len() ==> (r matches Ok(v) && v.micro() == be128_value(old(self).bytes@.subrange(old(self).position as int, old(self).position + 16))
                && final(self).position == old(self).position + 16),
            old(self).position + 16 > old(self).bytes@.len() ==> r == Err::<Amount, EconomyError>(
                EconomyError::MalformedEncoding,
            ),
    {
        match self.take(16) {
            Ok(v) => Ok(Amount::from_micro(read_u128(v))),
            Err(e) => Err(e),
        }
    }

    fn array_32(&mut self) -> (r: Result<[u8; 32], EconomyError>)
        requires
            old(self).wf(),
        ensures
            final(self).wf(),
            final(self).bytes@ == old(self).bytes@,
            old(self).position + 32 <= old(self).bytes@.len() ==> (r matches Ok(v) && v@ == old(self).bytes@.subrange(old(self).position as int, old(self).position + 32)
                && final(self).position == old(self).position + 32),
            old(self).position + 32 > old(self).bytes@.len() ==> r == Err::<[u8; 32], EconomyError>(
                EconomyError::MalformedEncoding,
            ),
    {
        let v = match self.take(32) {
            Ok(v) => v,
            Err(e) => {
                return Err(e);
            },
        };
        let mut out: [u8; 32] = [0u8; 32];
        let mut i: usize = 0;
        while i < 32
            invariant
                i <= 32,
                v@.len() == 32,
                out@.len() == 32,
                forall|j: int| 0 <= j < i ==> out@[j] == v@[j],
            decreases 32 - i,
        {
            out.set(i, v[i]);
            i = i + 1;
        }
        assert(out@ =~= v@);
        Ok(out)
    }

    fn finished(&self) -> (done: bool)
        requires
            self.wf(),
        ensures
            done == (self.rest().len() == 0),
    {
        self.position == self.bytes.len()
    }
}

/// The string whose UTF-8 bytes are `bytes`, if they are valid UTF-8.
/// Calls `String::from_utf8`; the contract states what its documentation
/// says: it succeeds exactly on valid UTF-8 and the string holds those bytes.
#[verifier::external_body]
pub(crate) fn string_from_utf8(bytes: Vec<u8>) -> (r: Option<String>)
    ensures
        r is Some <==> valid_utf8(bytes@),
        r matches Some(s) ==> s@ == decode_utf8(bytes@),
{
    match String::from_utf8(bytes) {
        Ok(s) => Some(s),
        Err(_) => None,
    }
}

fn same_bytes(a: &[u8], b: &[u8]) -> (eq: bool)
    ensures
        eq == (a@ == b@),
{
    if a.len() != b.len() {
        return false;
    }
    let mut i: usize = 0;
    while i < a.len()
        invariant
            i <= a@.len(),
            a@.len() == b@.len(),
            forall|j: int| 0 <= j < i ==> a@[j] == b@[j],
        decreases a@.len() - i,
    {
        if a[i] != b[i] {
            return false;
        }
        i = i + 1;
    }
    assert(a@ =~= b@);
    true
}

/// A nonempty character string has a nonempty encoding.
proof fn lemma_encode_nonempty(chars: Seq<char>)
    ensures
        (encode_utf8(chars).len() == 0) == (chars.len() == 0),
{
    if chars.len() != 0 {
        assert(encode_utf8(chars) == vstd::utf8::encode_scalar(chars[0] as u32) + encode_utf8(
            chars.drop_first(),
        ));
    }
}

/// Where each field of an encoded grant lies, when more bytes follow it.
proof fn lemma_grant_fields(g: GrantView, tail: Seq<u8>)
    ensures
        ({
            let s = grant_bytes(g) + tail;
            let n = encode_utf8(g.beneficiary).len() as int;
            &&& s.len() == 33 + n + tail.len()
            &&& s.subrange(0, 8) == be64(n as u64)
            &&& s.subrange(8, 8 + n) == encode_utf8(g.beneficiary)
            &&& s[8 + n] == channel_tag(g.channel)
            &&& s.subrange(9 + n, 25 + n) == be128(g.amount)
            &&& s.subrange(25 + n, 33 + n) == be64(g.vesting_ms)
            &&& s.skip(33 + n) == tail
        }),
{
    let s = grant_bytes(g) + tail;
    let n = encode_utf8(g.beneficiary).len() as int;
    assert(s.subrange(0, 8) =~= be64(n as u64));
    assert(s.subrange(8, 8 + n) =~= encode_utf8(g.beneficiary));
    assert(s.subrange(9 + n, 25 + n) =~= be128(g.amount));
    assert(s.subrange(25 + n, 33 + n) =~= be64(g.vesting_ms));
    assert(s.skip(33 + n) =~= tail);
}

/// Two encoded grants that begin the same byte string are the same grant,
/// followed by the same bytes.
proof fn lemma_grant_bytes_unique(g1: GrantView, g2: GrantView, x1: Seq<u8>, x2: Seq<u8>)
    requires
        grant_encodable(g1),
        grant_encodable(g2),
        grant_bytes(g1) + x1 == grant_bytes(g2) + x2,
    ensures
        g1 == g2,
        x1 == x2,
{
    let s = grant_bytes(g1) + x1;
    let n1 = encode_utf8(g1.beneficiary).len() as int;
    let n2 = encode_utf8(g2.beneficiary).len() as int;
    lemma_grant_fields(g1, x1);
    lemma_grant_fields(g2, x2);
    lemma_be64_round_trip(n1 as u64);
    lemma_be64_round_trip(n2 as u64);
    assert(n1 == n2);
    broadcast use encode_utf8_decode_utf8;

    assert(g1.beneficiary == decode_utf8(encode_utf8(g1.beneficiary)));
    assert(g1.beneficiary == g2.beneficiary);
    assert(g1.channel == g2.channel);
    lemma_be128_round_trip(g1.amount);
    lemma_be128_round_trip(g2.amount);
    lemma_be64_round_trip(g1.vesting_ms);
    lemma_be64_round_trip(g2.vesting_ms);
}

/// Two equally long lists of encoded grants that begin the same byte string
/// are the same list, followed by the same bytes.
#[verifier::spinoff_prover]
#[verifier::rlimit(40)]
proof fn lemma_grants_bytes_unique(a: Seq<GrantView>, b: Seq<GrantView>, x: Seq<u8>, y: Seq<u8>)
    requires
        a.len() == b.len(),
        forall|i: int| 0 <= i < a.len() ==> grant_encodable(#[trigger] a[i]),
        forall|i: int| 0 <= i < b.len() ==> grant_encodable(#[trigger] b[i]),
        grants_bytes(a) + x == grants_bytes(b) + y,
    ensures
        a == b,
        x == y,
    decreases a.len(),
{
    if a.len() == 0 {
        assert(grants_bytes(a) =~= Seq::<u8>::empty());
        assert(grants_bytes(b) =~= Seq::<u8>::empty());
        assert(x =~= grants_bytes(a) + x);
        assert(y =~= grants_bytes(b) + y);
        assert(a =~= b);
    } else {
        let a1 = a.drop_first();
        let b1 = b.drop_first();
        assert(grants_bytes(a) + x =~= grant_bytes(a[0]) + (grants_bytes(a1) + x));
        assert(grants_bytes(b) + y =~= grant_bytes(b[0]) + (grants_bytes(b1) + y));
        lemma_grant_bytes_unique(a[0], b[0], grants_bytes(a1) + x, grants_bytes(b1) + y);
        assert forall|i: int| 0 <= i < a1.len() implies grant_encodable(#[trigger] a1[i]) by {
            assert(a1[i] == a[i + 1]);
        }
        assert forall|i: int| 0 <= i < b1.len() implies grant_encodable(#[trigger] b1[i]) by {
            assert(b1[i] == b[i + 1]);
        }
        lemma_grants_bytes_unique(a1, b1, x, y);
        assert forall|i: int| 0 <= i < a.len() implies a[i] == b[i] by {
            if i > 0 {
                assert(a[i] == a1[i - 1]);
                assert(b[i] == b1[i - 1]);
            }
        }
        assert(a =~= b);
    }
}

/// A plan within the wire limits whose canonical bytes begin `bytes`.
#[verifier::opaque]
pub open spec fn wire_target(p: ScalableEpochPlan, bytes: Seq<u8>) -> bool {
    plan_within_limits(p) && plan_bytes(p).is_prefix_of(bytes)
}

/// Plans that agree field by field have the same bytes and the same limits.
proof fn lemma_agreeing_plans_encode_alike(a: ScalableEpochPlan, b: ScalableEpochPlan)
    requires
        plans_agree(a, b),
    ensures
        plan_bytes(a) == plan_bytes(b),
        plan_within_limits(a) == plan_within_limits(b),
{
    assert(grant_views(a.optional_grants@).len() == a.optional_grants@.len());
    assert(grant_views(b.optional_grants@).len() == b.optional_grants@.len());
    assert(header_bytes(a) == header_bytes(b)) by {
        reveal(header_bytes);
    }
}

/// Equal big-endian bytes come from equal numbers.
proof fn lemma_same_be64(a: u64, b: u64)
    requires
        be64(a) == be64(b),
    ensures
        a == b,
{
    lemma_be64_round_trip(a);
    lemma_be64_round_trip(b);
}

/// Equal big-endian bytes come from equal numbers.
proof fn lemma_same_be128(a: u128, b: u128)
    requires
        be128(a) == be128(b),
    ensures
        a == b,
{
    lemma_be128_round_trip(a);
    lemma_be128_round_trip(b);
}

/// Plans with the same encoded fixed-size part agree on every field in it.
proof fn lemma_header_unique(p1: ScalableEpochPlan, p2: ScalableEpochPlan)
    requires
        header_bytes(p1) == header_bytes(p2),
    ensures
        p1.epoch == p2.epoch,
        p1.duration_ms == p2.duration_ms,
        p1.opening_circulating.micro() == p2.opening_circulating.micro(),
        p1.human.epoch == p2.human.epoch,
        p1.human.snapshot.root@ == p2.human.snapshot.root@,
        p1.human.snapshot.eligible_count == p2.human.snapshot.eligible_count,
        p1.human.cap.micro() == p2.human.cap.micro(),
        p1.human.per_human.micro() == p2.human.per_human.micro(),
        p1.human.issued.micro() == p2.human.issued.micro(),
        p1.human.unissued_remainder.micro() == p2.human.unissued_remainder.micro(),
        p1.human.vesting_ms == p2.human.vesting_ms,
        p1.service_cap.micro() == p2.service_cap.micro(),
        p1.treasury_cap.micro() == p2.treasury_cap.micro(),
        p1.total_cap.micro() == p2.total_cap.micro(),
        p1.service_issued.micro() == p2.service_issued.micro(),
        p1.treasury_issued.micro() == p2.treasury_issued.micro(),
        p1.total_issued.micro() == p2.total_issued.micro(),
        p1.optional_grants@.len() == p2.optional_grants@.len(),
{
    lemma_header_fields(p1);
    lemma_header_fields(p2);
    lemma_same_be64(p1.epoch, p2.epoch);
    lemma_same_be64(p1.duration_ms, p2.duration_ms);
    lemma_same_be128(p1.opening_circulating.micro(), p2.opening_circulating.micro());
    lemma_same_be64(p1.human.epoch, p2.human.epoch);
    lemma_same_be64(p1.human.snapshot.eligible_count, p2.human.snapshot.eligible_count);
    lemma_same_be128(p1.human.cap.micro(), p2.human.cap.micro());
    lemma_same_be128(p1.human.per_human.micro(), p2.human.per_human.micro());
    lemma_same_be128(p1.human.issued.micro(), p2.human.issued.micro());
    lemma_same_be128(p1.human.unissued_remainder.micro(), p2.human.unissued_remainder.micro());
    lemma_same_be64(p1.human.vesting_ms, p2.human.vesting_ms);
    lemma_same_be128(p1.service_cap.micro(), p2.service_cap.micro());
    lemma_same_be128(p1.treasury_cap.micro(), p2.treasury_cap.micro());
    lemma_same_be128(p1.total_cap.micro(), p2.total_cap.micro());
    lemma_same_be128(p1.service_issued.micro(), p2.service_issued.micro());
    lemma_same_be128(p1.treasury_issued.micro(), p2.treasury_issued.micro());
    lemma_same_be128(p1.total_issued.micro(), p2.total_issued.micro());
    lemma_same_be64(p1.optional_grants@.len() as u64, p2.optional_grants@.len() as u64);
    assert(p1.optional_grants.len() == p1.optional_grants@.len());
    assert(p2.optional_grants.len() == p2.optional_grants@.len());
}

/// At most one encodable plan, up to field-by-field agreement, has
/// canonical bytes that begin a given byte string.
proof fn lemma_encoding_prefix_unique(p1: ScalableEpochPlan, p2: ScalableEpochPlan, bytes: Seq<u8>)
    requires
        plan_encodable(p1),
        plan_encodable(p2),
        plan_bytes(p1).is_prefix_of(bytes),
        plan_bytes(p2).is_prefix_of(bytes),
    ensures
        plans_agree(p1, p2),
        plan_bytes(p1) == plan_bytes(p2),
{
    let g1 = grant_views(p1.optional_grants@);
    let g2 = grant_views(p2.optional_grants@);
    let pb1 = plan_bytes(p1);
    let pb2 = plan_bytes(p2);
    lemma_header_fields(p1);
    lemma_header_fields(p2);
    assert(header_bytes(p1) =~= bytes.subrange(0, 296));
    assert(header_bytes(p2) =~= bytes.subrange(0, 296));
    lemma_header_unique(p1, p2);
    let x1 = bytes.skip(pb1.len() as int);
    let x2 = bytes.skip(pb2.len() as int);
    assert(pb1 =~= bytes.subrange(0, pb1.len() as int));
    assert(pb2 =~= bytes.subrange(0, pb2.len() as int));
    assert(bytes =~= pb1 + x1);
    assert(bytes =~= pb2 + x2);
    assert(bytes.skip(296) =~= grants_bytes(g1) + x1);
    assert(bytes.skip(296) =~= grants_bytes(g2) + x2);
    lemma_grants_bytes_unique(g1, g2, x1, x2);
    lemma_agreeing_plans_encode_alike(p1, p2);
}

/// A plan within the wire limits is encodable.
proof fn lemma_within_limits_encodable(p: ScalableEpochPlan)
    requires
        plan_within_limits(p),
    ensures
        plan_encodable(p),
{
    assert forall|i: int| 0 <= i < p.optional_grants@.len() implies grant_encodable(
        #[trigger] grant_views(p.optional_grants@)[i],
    ) by {
        assert(grant_within_limits(grant_views(p.optional_grants@)[i]));
    }
}

/// At most one plan, up to field-by-field agreement, has canonical bytes
/// that begin a given byte string.
proof fn lemma_wire_target_unique(p1: ScalableEpochPlan, p2: ScalableEpochPlan, bytes: Seq<u8>)
    requires
        wire_target(p1, bytes),
        wire_target(p2, bytes),
    ensures
        plans_agree(p1, p2),
        plan_bytes(p1) == plan_bytes(p2),
{
    reveal(wire_target);
    lemma_within_limits_encodable(p1);
    lemma_within_limits_encodable(p2);
    lemma_encoding_prefix_unique(p1, p2, bytes);
}

/// Reads one grant. Where the unread bytes are the encoding of `expected`
/// followed by `tail`, and `expected` is within the limits, the grant read
/// is `expected` and `tail` is left unread.
fn read_grant(reader: &mut Reader, Ghost(expected): Ghost<GrantView>, Ghost(tail): Ghost<Seq<u8>>) -> (r: Result<VestingGrant, EconomyError>)
    requires
        old(reader).wf(),
    ensures
        final(reader).wf(),
        final(reader).bytes@ == old(reader).bytes@,
        old(reader).rest() == grant_bytes(expected) + tail && grant_within_limits(expected) ==> (r matches Ok(g) && g@ == expected && final(reader).rest() == tail),
        r matches Err(e) ==> e == EconomyError::LimitExceeded || e == EconomyError::MalformedEncoding,
{
    let ghost start = reader.rest();
    let ghost all = reader.bytes@;
    let ghost p0 = reader.position as int;
    let ghost n = encode_utf8(expected.beneficiary).len() as int;
    let ghost target = start == grant_bytes(expected) + tail && grant_within_limits(expected);
    proof {
        if target {
            lemma_grant_fields(expected, tail);
            lemma_be64_round_trip(n as u64);
            lemma_be128_round_trip(expected.amount);
            lemma_be64_round_trip(expected.vesting_ms);
            lemma_encode_nonempty(expected.beneficiary);
            assert(all.subrange(p0, p0 + 8) =~= start.subrange(0, 8));
            assert(all.subrange(p0 + 8, p0 + 8 + n) =~= start.subrange(8, 8 + n));
            assert(all[p0 + 8 + n] == start[8 + n]);
            assert(all.subrange(p0 + 9 + n, p0 + 25 + n) =~= start.subrange(9 + n, 25 + n));
            assert(all.subrange(p0 + 25 + n, p0 + 33 + n) =~= start.subrange(25 + n, 33 + n));
            assert(all.subrange(p0 + 33 + n, all.len() as int) =~= start.skip(33 + n));
        }
    }
    let length = match reader.u64() {
        Ok(v) => v,
        Err(e) => {
            return Err(e);
        },
    };
    if length == 0 || length > MAX_EPOCH_BENEFICIARY_BYTES as u64 {
        return Err(EconomyError::LimitExceeded);
    }
    let name = match reader.take(length as usize) {
        Ok(v) => v,
        Err(e) => {
            return Err(e);
        },
    };
    proof {
        if target {
            broadcast use encode_utf8_valid_utf8;
            broadcast use encode_utf8_decode_utf8;

            assert(valid_utf8(name@));
            assert(decode_utf8(name@) == expected.beneficiary);
        }
    }
    let beneficiary = match string_from_utf8(slice_to_vec(name)) {
        Some(s) => s,
        None => {
            return Err(EconomyError::MalformedEncoding);
        },
    };
    let tag = match reader.u8() {
        Ok(v) => v,
        Err(e) => {
            return Err(e);
        },
    };
    let channel = match tag {
        0u8 => Channel::HumanShare,
        1u8 => Channel::Service,
        2u8 => Channel::TreasuryContribution,
        _ => {
            return Err(EconomyError::MalformedEncoding);
        },
    };
    let amount = match reader.amount() {
        Ok(v) => v,
        Err(e) => {
            return Err(e);
        },
    };
    let vesting_ms = match reader.u64() {
        Ok(v) => v,
        Err(e) => {
            return Err(e);
        },
    };
    Ok(VestingGrant { beneficiary, channel, amount, vesting_ms })
}

/// The fixed-size fields of a plan agree.
pub open spec fn fixed_fields_agree(a: ScalableEpochPlan, b: ScalableEpochPlan) -> bool {
    &&& a.epoch == b.epoch
    &&& a.duration_ms == b.duration_ms
    &&& a.opening_circulating.micro() == b.opening_circulating.micro()
    &&& a.human.epoch == b.human.epoch
    &&& a.human.snapshot.root@ == b.human.snapshot.root@
    &&& a.human.snapshot.eligible_count == b.human.snapshot.eligible_count
    &&& a.human.cap.micro() == b.human.cap.micro()
    &&& a.human.per_human.micro() == b.human.per_human.micro()
    &&& a.human.issued.micro() == b.human.issued.micro()
    &&& a.human.unissued_remainder.micro() == b.human.unissued_remainder.micro()
    &&& a.human.vesting_ms == b.human.vesting_ms
    &&& a.service_cap.micro() == b.service_cap.micro()
    &&& a.treasury_cap.micro() == b.treasury_cap.micro()
    &&& a.total_cap.micro() == b.total_cap.micro()
    &&& a.service_issued.micro() == b.service_issued.micro()
    &&& a.treasury_issued.micro() == b.treasury_issued.micro()
    &&& a.total_issued.micro() == b.total_issued.micro()
}

/// Reads the fixed-size part of a plan: a plan without grants, and the
/// grant count. Where the bytes are those of `expected`, the fields read
/// are those of `expected`.
fn read_header(header: &[u8], Ghost(expected): Ghost<ScalableEpochPlan>) -> (r: Result<(ScalableEpochPlan, u64), EconomyError>)
    requires
        header@.len() == WIRE_HEADER_BYTES,
    ensures
        header@ == header_bytes(expected) ==> (r matches Ok((q, c)) && fixed_fields_agree(q, expected) && c == expected.optional_grants@.len() as u64),
        r matches Ok((q, c)) ==> q.optional_grants@.len() == 0,
        r matches Err(e) ==> e == EconomyError::MalformedEncoding,
{
    let ghost t0 = expected;
    let ghost has_target = header@ == header_bytes(expected);
    proof {
        if has_target {
            lemma_header_fields(expected);
        }
    }
    let mut fields = Reader::new(header);
    let domain = match fields.take(40) {
        Ok(d) => d,
        Err(e) => {
            return Err(e);
        },
    };
    proof {
        if has_target {
            assert(domain@ =~= header_bytes(t0).subrange(0, 40));
        }
    }
    let expected_domain = domain_tag();
    if !same_bytes(domain, &expected_domain) {
        return Err(EconomyError::MalformedEncoding);
    }
    let epoch = match fields.u64() {
        Ok(v) => v,
        Err(e) => {
            return Err(e);
        },
    };
    let duration_ms = match fields.u64() {
        Ok(v) => v,
        Err(e) => {
            return Err(e);
        },
    };
    let opening_circulating = match fields.amount() {
        Ok(v) => v,
        Err(e) => {
            return Err(e);
        },
    };
    let human_epoch = match fields.u64() {
        Ok(v) => v,
        Err(e) => {
            return Err(e);
        },
    };
    let root = match fields.array_32() {
        Ok(v) => v,
        Err(e) => {
            return Err(e);
        },
    };
    let eligible_count = match fields.u64() {
        Ok(v) => v,
        Err(e) => {
            return Err(e);
        },
    };
    let cap = match fields.amount() {
        Ok(v) => v,
        Err(e) => {
            return Err(e);
        },
    };
    let per_human = match fields.amount() {
        Ok(v) => v,
        Err(e) => {
            return Err(e);
        },
    };
    let issued = match fields.amount() {
        Ok(v) => v,
        Err(e) => {
            return Err(e);
        },
    };
    let unissued_remainder = match fields.amount() {
        Ok(v) => v,
        Err(e) => {
            return Err(e);
        },
    };
    let vesting_ms = match fields.u64() {
        Ok(v) => v,
        Err(e) => {
            return Err(e);
        },
    };
    let service_cap = match fields.amount() {
        Ok(v) => v,
        Err(e) => {
            return Err(e);
        },
    };
    let treasury_cap = match fields.amount() {
        Ok(v) => v,
        Err(e) => {
            return Err(e);
        },
    };
    let total_cap = match fields.amount() {
        Ok(v) => v,
        Err(e) => {
            return Err(e);
        },
    };
    let service_issued = match fields.amount() {
        Ok(v) => v,
        Err(e) => {
            return Err(e);
        },
    };
    let treasury_issued = match fields.amount() {
        Ok(v) => v,
        Err(e) => {
            return Err(e);
        },
    };
    let total_issued = match fields.amount() {
        Ok(v) => v,
        Err(e) => {
            return Err(e);
        },
    };
    let count = match fields.u64() {
        Ok(v) => v,
        Err(e) => {
            return Err(e);
        },
    };
    proof {
        if has_target {
            lemma_be64_round_trip(t0.epoch);
            lemma_be64_round_trip(t0.duration_ms);
            lemma_be128_round_trip(t0.opening_circulating.micro());
            lemma_be64_round_trip(t0.human.epoch);
            lemma_be64_round_trip(t0.human.snapshot.eligible_count);
            lemma_be128_round_trip(t0.human.cap.micro());
            lemma_be128_round_trip(t0.human.per_human.micro());
            lemma_be128_round_trip(t0.human.issued.micro());
            lemma_be128_round_trip(t0.human.unissued_remainder.micro());
            lemma_be64_round_trip(t0.human.vesting_ms);
            lemma_be128_round_trip(t0.service_cap.micro());
            lemma_be128_round_trip(t0.treasury_cap.micro());
            lemma_be128_round_trip(t0.total_cap.micro());
            lemma_be128_round_trip(t0.service_issued.micro());
            lemma_be128_round_trip(t0.treasury_issued.micro());
            lemma_be128_round_trip(t0.total_issued.micro());
            lemma_be64_round_trip(t0.optional_grants@.len() as u64);
            assert(count == t0.optional_grants@.len() as u64);
        }
    }
    let plan = ScalableEpochPlan {
        epoch,
        duration_ms,
        opening_circulating,
        human: HumanSharePlan {
            epoch: human_epoch,
            snapshot: HumanSnapshot { root, eligible_count },
            cap,
            per_human,
            issued,
            unissued_remainder,
            vesting_ms,
        },
        service_cap,
        treasury_cap,
        total_cap,
        service_issued,
        treasury_issued,
        total_issued,
        optional_grants: Vec::new(),
    };
    Ok((plan, count))
}

/// The header bytes of a target are the first bytes of the input, and its
/// grants follow them.
proof fn lemma_target_layout(p: ScalableEpochPlan, bytes: Seq<u8>)
    requires
        wire_target(p, bytes),
    ensures
        plan_within_limits(p),
        WIRE_HEADER_BYTES <= plan_bytes(p).len() <= bytes.len(),
        plan_bytes(p).len() == bytes.len() ==> plan_bytes(p) == bytes,
        bytes.subrange(0, 296) == header_bytes(p),
        bytes.skip(296) == grants_bytes(grant_views(p.optional_grants@)) + bytes.skip(
            plan_bytes(p).len() as int,
        ),
{
    reveal(wire_target);
    let pb = plan_bytes(p);
    let x = bytes.skip(pb.len() as int);
    lemma_header_fields(p);
    assert(pb =~= bytes.subrange(0, pb.len() as int));
    assert(bytes =~= pb + x);
    assert(bytes.subrange(0, 296) =~= header_bytes(p));
    assert(bytes.skip(296) =~= grants_bytes(grant_views(p.optional_grants@)) + x);
}

impl ScalableEpochPlan {
    /// Decode one canonical plan, with counts and byte lengths bounded
    /// before anything is built. Decoding grants no issuance authority.
    #[verifier::spinoff_prover]
    #[verifier::rlimit(60)]
    pub fn from_wire_bytes(bytes: &[u8]) -> (r: Result<ScalableEpochPlan, EconomyError>)
        ensures
            bytes@.len() > MAX_SCALABLE_EPOCH_PLAN_BYTES ==> r == Err::<
                ScalableEpochPlan,
                EconomyError,
            >(EconomyError::LimitExceeded),
            r matches Ok(p) ==> plan_within_limits(p) && plan_bytes(p) == bytes@,
            forall|t: ScalableEpochPlan|
                #[trigger] wire_target(t, bytes@) && bytes@.len() <= MAX_SCALABLE_EPOCH_PLAN_BYTES
                    ==> if plan_bytes(t).len() == bytes@.len() {
                    r matches Ok(p) && plans_agree(p, t)
                } else {
                    r == Err::<ScalableEpochPlan, EconomyError>(EconomyError::MalformedEncoding)
                },
            r matches Err(e) ==> e == EconomyError::LimitExceeded || e
                == EconomyError::MalformedEncoding,
    {
        if bytes.len() > MAX_SCALABLE_EPOCH_PLAN_BYTES {
            return Err(EconomyError::LimitExceeded);
        }
        let ghost b = bytes@;
        let ghost has_target = exists|t: ScalableEpochPlan| wire_target(t, b);
        let ghost t0 = choose|t: ScalableEpochPlan| wire_target(t, b);
        let ghost views0 = grant_views(t0.optional_grants@);
        let ghost extra0 = b.skip(plan_bytes(t0).len() as int);
        proof {
            if has_target {
                lemma_target_layout(t0, b);
            }
        }
        let mut reader = Reader::new(bytes);
        let header = match reader.take(WIRE_HEADER_BYTES) {
            Ok(h) => h,
            Err(e) => {
                return Err(e);
            },
        };
        proof {
            if has_target {
                assert(header@ =~= header_bytes(t0));
                assert(reader.rest() =~= b.skip(296));
                assert(views0.skip(0) =~= views0);
            }
        }
        let (fixed, count) = match read_header(header, Ghost(t0)) {
            Ok(v) => v,
            Err(e) => {
                return Err(e);
            },
        };
        proof {
            if has_target {
                lemma_be64_round_trip(t0.optional_grants@.len() as u64);
            }
        }
        if count > MAX_SCALABLE_EPOCH_GRANTS as u64 {
            return Err(EconomyError::LimitExceeded);
        }
        let count = count as usize;
        let mut optional_grants: Vec<VestingGrant> = Vec::new();
        let mut i: usize = 0;
        while i < count
            invariant
                reader.wf(),
                reader.bytes@ == b,
                b == bytes@,
                b.len() <= MAX_SCALABLE_EPOCH_PLAN_BYTES,
                i <= count,
                has_target ==> count == views0.len(),
                has_target ==> reader.rest() == grants_bytes(views0.skip(i as int)) + extra0,
                has_target ==> grant_views(optional_grants@) == views0.take(i as int),
                has_target == (exists|t: ScalableEpochPlan| wire_target(t, b)),
                has_target ==> wire_target(t0, b),
                has_target ==> plan_within_limits(t0),
                views0 == grant_views(t0.optional_grants@),
            decreases count - i,
        {
            let ghost expected = views0[i as int];
            let ghost later = grants_bytes(views0.skip(i + 1)) + extra0;
            proof {
                if has_target {
                    let s = views0.skip(i as int);
                    assert(s[0] == expected);
                    assert(s.drop_first() =~= views0.skip(i + 1));
                    assert(grants_bytes(s) + extra0 =~= grant_bytes(expected) + later);
                    assert(grant_views(t0.optional_grants@)[i as int] == expected);
                    assert(grant_within_limits(expected));
                }
            }
            let grant = match read_grant(&mut reader, Ghost(expected), Ghost(later)) {
                Ok(g) => g,
                Err(e) => {
                    return Err(e);
                },
            };
            optional_grants.push(grant);
            proof {
                if has_target {
                    assert(grant_views(optional_grants@) =~= views0.take(i + 1));
                }
            }
            i = i + 1;
        }
        proof {
            if has_target {
                assert(views0.skip(i as int) =~= Seq::<GrantView>::empty());
                assert(grants_bytes(views0.skip(i as int)) =~= Seq::<u8>::empty());
                assert(reader.rest() =~= extra0);
                assert(views0.take(i as int) =~= views0);
            }
        }
        if !reader.finished() {
            proof {
                assert forall|t: ScalableEpochPlan| #[trigger] wire_target(t, b) implies plan_bytes(
                    t,
                ).len() != b.len() by {
                    lemma_wire_target_unique(t, t0, b);
                }
            }
            return Err(EconomyError::MalformedEncoding);
        }
        let mut plan = fixed;
        plan.optional_grants = optional_grants;
        proof {
            if has_target {
                assert(plans_agree(plan, t0));
                lemma_agreeing_plans_encode_alike(plan, t0);
                assert(extra0.len() == 0);
                assert(plan_bytes(t0) == b);
            }
        }
        let wire = match plan.to_wire_bytes() {
            Ok(w) => w,
            Err(e) => {
                return Err(e);
            },
        };
        if !same_bytes(wire.as_slice(), bytes) {
            return Err(EconomyError::MalformedEncoding);
        }
        proof {
            assert forall|t: ScalableEpochPlan| #[trigger] wire_target(t, b) implies plans_agree(
                plan,
                t,
            ) && plan_bytes(t).len() == b.len() by {
                lemma_wire_target_unique(t, t0, b);
            }
        }
        Ok(plan)
    }
}

/// Canonical bytes tell plans apart: two plans with the same canonical
/// bytes agree field by field. The only condition is that each grant name's
/// UTF-8 length fits its 64-bit length field, as it does for every plan in
/// memory.
pub proof fn lemma_canonical_bytes_injective(p: ScalableEpochPlan, q: ScalableEpochPlan)
    requires
        plan_encodable(p),
        plan_encodable(q),
        plan_bytes(p) == plan_bytes(q),
    ensures
        plans_agree(p, q),
{
    assert(plan_bytes(p).is_prefix_of(plan_bytes(p)));
    lemma_encoding_prefix_unique(p, q, plan_bytes(p));
}

/// No plan's encoding is a proper prefix of another's: so no proper prefix
/// of an encoding is itself an encoding, and (since `from_wire_bytes`
/// accepts only canonical encodings) no proper prefix decodes.
pub proof fn lemma_no_proper_prefix(p: ScalableEpochPlan, q: ScalableEpochPlan)
    requires
        plan_encodable(p),
        plan_encodable(q),
        plan_bytes(q).is_prefix_of(plan_bytes(p)),
    ensures
        plan_bytes(q) == plan_bytes(p),
        plans_agree(p, q),
{
    assert(plan_bytes(p).is_prefix_of(plan_bytes(p)));
    lemma_encoding_prefix_unique(p, q, plan_bytes(p));
}

/// Law: every plan within the wire limits is decoded from its own canonical
/// bytes — its bytes are a decoding target that fits the size limit — so
/// decoding what `to_wire_bytes` produced gives back a plan that agrees with
/// the original field by field.
pub proof fn lemma_wire_round_trip(p: ScalableEpochPlan)
    requires
        plan_within_limits(p),
    ensures
        wire_target(p, plan_bytes(p)),
        plan_bytes(p).len() <= MAX_SCALABLE_EPOCH_PLAN_BYTES,
{
    reveal(wire_target);
    assert(plan_bytes(p) =~= plan_bytes(p).subrange(0, plan_bytes(p).len() as int));
}

} // verus!
