//! Versioned BLAKE3 commitments to epoch plans and to the ledger state.
//!
//! Each commitment hashes a domain-tagged byte string that represents every
//! committed field; the byte strings are stated here and the hash is
//! BLAKE3's.
use crate::economy_error::EconomyError;
use crate::health::{blake3_hash, digest};
use crate::issuance::{grant_views, Channel, EpochPlan, ScalableEpochPlan};
use crate::ledger::{MonetaryLedger, VestingPosition, VestingSubject};
use crate::scalable_epoch_wire::{
    be128, be64, channel_tag, grants_bytes, plan_bytes, put_amount, put_grants, put_slice,
    put_u128, put_u64,
};
use vstd::prelude::*;
use vstd::utf8::encode_utf8;

verus! {

/// `mini-economy/epoch-plan/v1` in ASCII.
pub open spec fn epoch_plan_domain() -> Seq<u8> {
    seq![
        109, 105, 110, 105, 45, 101, 99, 111, 110, 111, 109, 121, 47, 101, 112, 111, 99, 104, 45,
        112, 108, 97, 110, 47, 118, 49,
    ]
}

/// `mini-economy/monetary-ledger/v1` in ASCII.
pub open spec fn ledger_domain() -> Seq<u8> {
    seq![
        109, 105, 110, 105, 45, 101, 99, 111, 110, 111, 109, 121, 47, 109, 111, 110, 101, 116, 97,
        114, 121, 45, 108, 101, 100, 103, 101, 114, 47, 118, 49,
    ]
}

fn epoch_plan_tag() -> (d: [u8; 26])
    ensures
        d@ == epoch_plan_domain(),
{
    let d: [u8; 26] = [
        109, 105, 110, 105, 45, 101, 99, 111, 110, 111, 109, 121, 47, 101, 112, 111, 99, 104, 45,
        112, 108, 97, 110, 47, 118, 49,
    ];
    assert(d@ =~= epoch_plan_domain());
    d
}

fn ledger_tag() -> (d: [u8; 31])
    ensures
        d@ == ledger_domain(),
{
    let d: [u8; 31] = [
        109, 105, 110, 105, 45, 101, 99, 111, 110, 111, 109, 121, 47, 109, 111, 110, 101, 116, 97,
        114, 121, 45, 108, 101, 100, 103, 101, 114, 47, 118, 49,
    ];
    assert(d@ =~= ledger_domain());
    d
}

/// The committed bytes of a listed-humans epoch plan.
pub open spec fn epoch_plan_bytes(p: EpochPlan) -> Seq<u8> {
    epoch_plan_domain() + be64(p.epoch) + be64(p.duration_ms) + be128(p.opening_circulating.micro())
        + be128(p.human_cap.micro()) + be128(p.service_cap.micro()) + be128(p.treasury_cap.micro())
        + be128(p.total_cap.micro()) + be128(p.human_issued.micro()) + be128(
        p.service_issued.micro(),
    ) + be128(p.treasury_issued.micro()) + be128(p.total_issued.micro()) + be64(
        p.grants@.len() as u64,
    ) + grants_bytes(grant_views(p.grants@))
}

/// The committed bytes of one vesting position.
pub open spec fn position_bytes(p: VestingPosition) -> Seq<u8> {
    be64(p.epoch) + match p.subject {
        VestingSubject::HumanSnapshot(s) => seq![0u8] + s.root@ + be64(s.eligible_count),
        VestingSubject::Beneficiary(b) => seq![1u8] + be64(encode_utf8(b@).len() as u64)
            + encode_utf8(b@),
    } + seq![channel_tag(p.channel)] + be128(p.amount.micro()) + be128(p.starts_at_policy_ms)
        + be64(p.duration_ms)
}

/// The committed bytes of positions, one after another.
pub open spec fn positions_bytes(ps: Seq<VestingPosition>) -> Seq<u8>
    decreases ps.len(),
{
    if ps.len() == 0 {
        Seq::empty()
    } else {
        positions_bytes(ps.drop_last()) + position_bytes(ps.last())
    }
}

/// The committed bytes of the ledger state.
pub open spec fn ledger_bytes(l: MonetaryLedger) -> Seq<u8> {
    ledger_domain() + be128(l.genesis().micro()) + be128(l.issued().micro()) + be128(
        l.policy_time(),
    ) + match l.last() {
        Some(e) => seq![1u8] + be64(e),
        None => seq![0u8],
    } + be64(l.position_seq().len() as u64) + positions_bytes(l.position_seq())
}

fn put_position(out: &mut Vec<u8>, position: &VestingPosition)
    ensures
        final(out)@ == old(out)@ + position_bytes(*position),
{
    let ghost start = out@;
    put_u64(out, position.epoch);
    let ghost after_epoch = out@;
    match &position.subject {
        VestingSubject::HumanSnapshot(snapshot) => {
            out.push(0u8);
            put_slice(out, &snapshot.root);
            put_u64(out, snapshot.eligible_count);
            assert(out@ =~= after_epoch + (seq![0u8] + snapshot.root@ + be64(
                snapshot.eligible_count,
            )));
        },
        VestingSubject::Beneficiary(beneficiary) => {
            let name = beneficiary.as_str().as_bytes();
            out.push(1u8);
            put_u64(out, name.len() as u64);
            put_slice(out, name);
            assert(out@ =~= after_epoch + (seq![1u8] + be64(encode_utf8(beneficiary@).len() as u64)
                + encode_utf8(beneficiary@)));
        },
    }
    out.push(
        match position.channel {
            Channel::HumanShare => 0u8,
            Channel::Service => 1u8,
            Channel::TreasuryContribution => 2u8,
        },
    );
    put_amount(out, position.amount);
    put_u128(out, position.starts_at_policy_ms);
    put_u64(out, position.duration_ms);
    assert(out@ =~= start + position_bytes(*position));
}

impl EpochPlan {
    /// Versioned commitment to the exact transition proposal.
    pub fn commitment(&self) -> (c: [u8; 32])
        ensures
            c@ == blake3_hash(epoch_plan_bytes(*self)),
    {
        let mut bytes: Vec<u8> = Vec::new();
        let domain = epoch_plan_tag();
        put_slice(&mut bytes, &domain);
        put_u64(&mut bytes, self.epoch);
        put_u64(&mut bytes, self.duration_ms);
        put_amount(&mut bytes, self.opening_circulating);
        put_amount(&mut bytes, self.human_cap);
        put_amount(&mut bytes, self.service_cap);
        put_amount(&mut bytes, self.treasury_cap);
        put_amount(&mut bytes, self.total_cap);
        put_amount(&mut bytes, self.human_issued);
        put_amount(&mut bytes, self.service_issued);
        put_amount(&mut bytes, self.treasury_issued);
        put_amount(&mut bytes, self.total_issued);
        put_u64(&mut bytes, self.grants.len() as u64);
        put_grants(&mut bytes, &self.grants);
        digest(bytes.as_slice())
    }
}

impl ScalableEpochPlan {
    /// Commitment to the plan: the BLAKE3 hash of its canonical bytes, which
    /// represent every field.
    pub fn commitment(&self) -> (c: [u8; 32])
        ensures
            c@ == blake3_hash(plan_bytes(*self)),
    {
        let bytes = self.canonical_bytes();
        digest(bytes.as_slice())
    }
}

impl MonetaryLedger {
    /// Commitment to the exact ledger state.
    pub fn commitment(&self) -> (c: [u8; 32])
        ensures
            c@ == blake3_hash(ledger_bytes(*self)),
    {
        let mut bytes: Vec<u8> = Vec::new();
        let domain = ledger_tag();
        put_slice(&mut bytes, &domain);
        put_amount(&mut bytes, self.genesis_amount());
        put_amount(&mut bytes, self.total_issued());
        put_u128(&mut bytes, self.policy_time_ms());
        let ghost before_last = bytes@;
        match self.last_epoch() {
            Some(epoch) => {
                bytes.push(1u8);
                put_u64(&mut bytes, epoch);
                assert(bytes@ =~= before_last + (seq![1u8] + be64(epoch)));
            },
            None => {
                bytes.push(0u8);
                assert(bytes@ =~= before_last + seq![0u8]);
            },
        }
        let positions = self.positions();
        put_u64(&mut bytes, positions.len() as u64);
        let ghost head = bytes@;
        let mut i: usize = 0;
        assert(positions@.subrange(0, 0) =~= Seq::<VestingPosition>::empty());
        assert(head + positions_bytes(positions@.subrange(0, 0)) =~= head);
        while i < positions.len()
            invariant
                i <= positions@.len(),
                bytes@ == head + positions_bytes(positions@.subrange(0, i as int)),
            decreases positions@.len() - i,
        {
            put_position(&mut bytes, &positions[i]);
            proof {
                let next = positions@.subrange(0, i + 1);
                assert(next.drop_last() =~= positions@.subrange(0, i as int));
                assert(next.last() == positions@[i as int]);
                assert(bytes@ =~= head + positions_bytes(next));
            }
            i = i + 1;
        }
        assert(positions@.subrange(0, i as int) =~= positions@);
        digest(bytes.as_slice())
    }
}

} // verus!
