//! Deterministic aggregate MINI supply and vesting state. Policy time is the
//! sum of finalized epoch durations, never a wall clock.
use crate::amount::Amount;
use crate::economy_error::EconomyError;
use crate::issuance::{
    allocation_prefix, beneficiary_repeats, channel_cap, grant_views, grants_for,
    is_scalable_plan_of, plan_scalable_epoch, root_is_blank, scalable_error_of, Allocation,
    Channel, HumanSnapshot, IssuancePolicy, ScalableEpochPlan, ScalableEpochRequest, VestingGrant,
    YEAR_MS,
};
use vstd::prelude::*;

verus! {

#[derive(Debug, Clone, PartialEq, Eq)]
pub enum VestingSubject {
    HumanSnapshot(HumanSnapshot),
    Beneficiary(String),
}

/// One supply position created by finalized issuance.
#[derive(Debug, Clone, PartialEq, Eq)]
pub struct VestingPosition {
    pub epoch: u64,
    pub subject: VestingSubject,
    pub channel: Channel,
    pub amount: Amount,
    pub starts_at_policy_ms: u128,
    pub duration_ms: u64,
}

/// How much of a position has vested at policy time `policy_ms`:
/// linearly over its duration from its start, floored.
pub open spec fn vested_value(p: VestingPosition, policy_ms: u128) -> nat {
    if p.duration_ms == 0 {
        p.amount.micro() as nat
    } else {
        let elapsed: nat = if policy_ms >= p.starts_at_policy_ms {
            (policy_ms - p.starts_at_policy_ms) as nat
        } else {
            0
        };
        if elapsed >= p.duration_ms {
            p.amount.micro() as nat
        } else {
            (p.amount.micro() as nat * elapsed) / (p.duration_ms as nat)
        }
    }
}

/// The vested amounts of the first `n` positions, summed.
pub open spec fn vested_sum(positions: Seq<VestingPosition>, policy_ms: u128, n: nat) -> nat
    decreases n,
{
    if n == 0 {
        0
    } else {
        vested_sum(positions, policy_ms, (n - 1) as nat) + vested_value(positions[n - 1], policy_ms)
    }
}

/// The first `n` micro amounts, summed.
pub open spec fn micro_sum(s: Seq<u128>, n: nat) -> nat
    decreases n,
{
    if n == 0 {
        0
    } else {
        micro_sum(s, (n - 1) as nat) + s[n - 1] as nat
    }
}

/// The micro amounts of a list of positions.
pub open spec fn position_amounts(ps: Seq<VestingPosition>) -> Seq<u128> {
    ps.map_values(|p: VestingPosition| p.amount.micro())
}

/// The micro amounts of a list of allocations.
pub open spec fn allocation_amounts(allocs: Seq<Allocation>) -> Seq<u128> {
    allocs.map_values(|a: Allocation| a.amount.micro())
}

/// A subject that issuance can vest to: a committed snapshot with someone
/// in it, or a nonempty name.
pub open spec fn subject_ok(s: VestingSubject) -> bool {
    match s {
        VestingSubject::HumanSnapshot(h) => !root_is_blank(h.root) && h.eligible_count != 0,
        VestingSubject::Beneficiary(b) => b@.len() != 0,
    }
}

impl VestingPosition {
    pub fn vested_at(&self, policy_ms: u128) -> (r: Result<Amount, EconomyError>)
        ensures
            r matches Ok(a) && a.micro() == vested_value(*self, policy_ms),
    {
        if self.duration_ms == 0 {
            return Ok(self.amount);
        }
        let elapsed = policy_ms.saturating_sub(self.starts_at_policy_ms);
        let d = self.duration_ms as u128;
        if elapsed >= d {
            return Ok(self.amount);
        }
        let amount = self.amount.as_micro();
        let q = amount / d;
        let rem = amount % d;
        proof {
            vstd::arithmetic::div_mod::lemma_fundamental_div_mod(amount as int, d as int);
            vstd::arithmetic::div_mod::lemma_mod_bound(amount as int, d as int);
            assert(q * elapsed <= q * d) by (nonlinear_arith)
                requires
                    elapsed < d,
            ;
            assert(q * d <= amount) by (nonlinear_arith)
                requires
                    amount == d * q + rem,
                    rem >= 0,
            ;
            assert(rem * elapsed < d * d) by (nonlinear_arith)
                requires
                    rem < d,
                    elapsed < d,
            ;
            assert(d * d <= 0xFFFF_FFFF_FFFF_FFFFu128 * 0xFFFF_FFFF_FFFF_FFFFu128) by (nonlinear_arith)
                requires
                    d <= 0xFFFF_FFFF_FFFF_FFFFu128,
            ;
        }
        let whole = q * elapsed;
        let prod = rem * elapsed;
        let fractional = prod / d;
        proof {
            let s = prod as int;
            vstd::arithmetic::div_mod::lemma_fundamental_div_mod(s, d as int);
            vstd::arithmetic::div_mod::lemma_mod_bound(s, d as int);
            let total = amount as int * elapsed as int;
            assert(total == d * (q * elapsed + fractional) + s % (d as int)) by (nonlinear_arith)
                requires
                    amount == d * q + rem,
                    s == rem * elapsed,
                    s == d * fractional + s % (d as int),
                    total == amount * elapsed,
            ;
            vstd::arithmetic::div_mod::lemma_fundamental_div_mod_converse(
                total,
                d as int,
                (q * elapsed + fractional) as int,
                s % (d as int),
            );
            assert(fractional <= rem) by (nonlinear_arith)
                requires
                    s == rem * elapsed,
                    elapsed < d,
                    s == d * fractional + s % (d as int),
                    0 <= s % (d as int),
            ;
            assert(whole + fractional <= amount) by (nonlinear_arith)
                requires
                    whole == q * elapsed,
                    elapsed < d,
                    amount == d * q + rem,
                    fractional <= rem,
            ;
        }
        Ok(Amount::from_micro(whole + fractional))
    }
}

/// Deterministic aggregate MINI supply and vesting state.
#[derive(Debug, Clone, PartialEq, Eq)]
pub struct MonetaryLedger {
    genesis_circulating: Amount,
    total_issued: Amount,
    policy_time_ms: u128,
    last_epoch: Option<u64>,
    positions: Vec<VestingPosition>,
}

/// The epoch a ledger expects next.
pub open spec fn next_epoch(last: Option<u64>) -> u64 {
    match last {
        None => 0,
        Some(e) => if e == u64::MAX {
            e
        } else {
            (e + 1) as u64
        },
    }
}

/// The allocations that the first `n` grants of `channel` stand for.
pub open spec fn channel_allocs(grants: Seq<VestingGrant>, channel: Channel, n: nat) -> Seq<Allocation>
    decreases n,
{
    if n == 0 {
        Seq::empty()
    } else {
        let p = channel_allocs(grants, channel, (n - 1) as nat);
        if grants[n - 1].channel == channel {
            p.push(Allocation { beneficiary: grants[n - 1].beneficiary, amount: grants[n - 1].amount })
        } else {
            p
        }
    }
}

/// Why a plan does not have the shape that planning would give it, if it
/// does not.
pub open spec fn plan_shape_error(plan: ScalableEpochPlan, policy: IssuancePolicy) -> Option<
    EconomyError,
> {
    let g = plan.optional_grants@;
    let service = channel_allocs(g, Channel::Service, g.len());
    let treasury = channel_allocs(g, Channel::TreasuryContribution, g.len());
    match scalable_error_of(
        plan.duration_ms,
        plan.opening_circulating,
        plan.human.snapshot,
        service,
        treasury,
        policy,
    ) {
        Some(e) => Some(e),
        None => if is_scalable_plan_of(
            plan,
            plan.epoch,
            plan.duration_ms,
            plan.opening_circulating,
            plan.human.snapshot,
            service,
            treasury,
            policy,
        ) {
            None
        } else {
            Some(EconomyError::InvalidEpochPlan)
        },
    }
}

/// The two plans agree in every field.
pub open spec fn plans_agree(a: ScalableEpochPlan, b: ScalableEpochPlan) -> bool {
    &&& a.epoch == b.epoch
    &&& a.duration_ms == b.duration_ms
    &&& a.opening_circulating.micro() == b.opening_circulating.micro()
    &&& a.human.epoch == b.human.epoch
    &&& a.human.snapshot.root@ == b.human.snapshot.root@
    &&& a.human.snapshot.eligible_count == b.human.snapshot.eligible_count
    &&& a.human.cap.micro() == b.human.cap.micro()
    &&& a.human.per_human.micro() == b.human.per_human.micro()
    &&& a.human.issued.micro() == b.human.issued.micro()
    &&& a.human.unissued_remainder.micro() == b.human.unissued_remainder.micro()
    &&& a.human.vesting_ms == b.human.vesting_ms
    &&& a.service_cap.micro() == b.service_cap.micro()
    &&& a.treasury_cap.micro() == b.treasury_cap.micro()
    &&& a.total_cap.micro() == b.total_cap.micro()
    &&& a.service_issued.micro() == b.service_issued.micro()
    &&& a.treasury_issued.micro() == b.treasury_issued.micro()
    &&& a.total_issued.micro() == b.total_issued.micro()
    &&& grant_views(a.optional_grants@) == grant_views(b.optional_grants@)
}

fn same_bytes_32(a: &[u8; 32], b: &[u8; 32]) -> (eq: bool)
    ensures
        eq == (a@ == b@),
{
    let mut i: usize = 0;
    while i < 32
        invariant
            i <= 32,
            a@.len() == 32,
            b@.len() == 32,
            forall|j: int| 0 <= j < i ==> a@[j] == b@[j],
        decreases 32 - i,
    {
        if a[i] != b[i] {
            return false;
        }
        i = i + 1;
    }
    assert(a@ =~= b@);
    true
}

fn same_grants(a: &Vec<VestingGrant>, b: &Vec<VestingGrant>) -> (eq: bool)
    ensures
        eq == (grant_views(a@) == grant_views(b@)),
{
    if a.len() != b.len() {
        proof {
            assert(grant_views(a@).len() != grant_views(b@).len());
        }
        return false;
    }
    let mut i: usize = 0;
    while i < a.len()
        invariant
            i <= a@.len(),
            a@.len() == b@.len(),
            forall|j: int| 0 <= j < i ==> (#[trigger] a@[j])@ == b@[j]@,
        decreases a@.len() - i,
    {
        let x = &a[i];
        let y = &b[i];
        if !(x.beneficiary == y.beneficiary && x.channel == y.channel && x.amount.as_micro()
            == y.amount.as_micro() && x.vesting_ms == y.vesting_ms) {
            proof {
                assert(grant_views(a@)[i as int] != grant_views(b@)[i as int]);
            }
            return false;
        }
        i = i + 1;
    }
    assert(grant_views(a@) =~~= grant_views(b@));
    true
}

fn same_plan(a: &ScalableEpochPlan, b: &ScalableEpochPlan) -> (eq: bool)
    ensures
        eq == plans_agree(*a, *b),
{
    a.epoch == b.epoch && a.duration_ms == b.duration_ms && a.opening_circulating.as_micro()
        == b.opening_circulating.as_micro() && a.human.epoch == b.human.epoch && same_bytes_32(
        &a.human.snapshot.root,
        &b.human.snapshot.root,
    ) && a.human.snapshot.eligible_count == b.human.snapshot.eligible_count
        && a.human.cap.as_micro() == b.human.cap.as_micro() && a.human.per_human.as_micro()
        == b.human.per_human.as_micro() && a.human.issued.as_micro() == b.human.issued.as_micro()
        && a.human.unissued_remainder.as_micro() == b.human.unissued_remainder.as_micro()
        && a.human.vesting_ms == b.human.vesting_ms && a.service_cap.as_micro()
        == b.service_cap.as_micro() && a.treasury_cap.as_micro() == b.treasury_cap.as_micro()
        && a.total_cap.as_micro() == b.total_cap.as_micro() && a.service_issued.as_micro()
        == b.service_issued.as_micro() && a.treasury_issued.as_micro()
        == b.treasury_issued.as_micro() && a.total_issued.as_micro() == b.total_issued.as_micro()
        && same_grants(&a.optional_grants, &b.optional_grants)
}

fn allocations(grants: &Vec<VestingGrant>, channel: Channel) -> (out: Vec<Allocation>)
    ensures
        out@ == channel_allocs(grants@, channel, grants@.len()),
{
    let mut out: Vec<Allocation> = Vec::new();
    let mut i: usize = 0;
    while i < grants.len()
        invariant
            i <= grants@.len(),
            out@ == channel_allocs(grants@, channel, i as nat),
        decreases grants@.len() - i,
    {
        let g = &grants[i];
        if g.channel == channel {
            out.push(Allocation { beneficiary: g.beneficiary.clone(), amount: g.amount });
        }
        i = i + 1;
    }
    out
}

proof fn lemma_agree_gives_shape(
    expected: ScalableEpochPlan,
    plan: ScalableEpochPlan,
    service: Seq<Allocation>,
    treasury: Seq<Allocation>,
    policy: IssuancePolicy,
)
    requires
        is_scalable_plan_of(
            expected,
            plan.epoch,
            plan.duration_ms,
            plan.opening_circulating,
            plan.human.snapshot,
            service,
            treasury,
            policy,
        ),
    ensures
        plans_agree(expected, plan) <==> is_scalable_plan_of(
            plan,
            plan.epoch,
            plan.duration_ms,
            plan.opening_circulating,
            plan.human.snapshot,
            service,
            treasury,
            policy,
        ),
{
    if is_scalable_plan_of(
        plan,
        plan.epoch,
        plan.duration_ms,
        plan.opening_circulating,
        plan.human.snapshot,
        service,
        treasury,
        policy,
    ) {
        assert(expected.human.snapshot == plan.human.snapshot);
        assert(expected.opening_circulating == plan.opening_circulating);
    }
    if plans_agree(expected, plan) {
        Amount::lemma_ext(expected.opening_circulating, plan.opening_circulating);
    }
}

fn validate_plan_shape(plan: &ScalableEpochPlan, policy: &IssuancePolicy) -> (r: Result<(), EconomyError>)
    ensures
        ({
            match plan_shape_error(*plan, *policy) {
                Some(e) => r == Err::<(), EconomyError>(e),
                None => r is Ok,
            }
        }),
{
    let request = ScalableEpochRequest {
        epoch: plan.epoch,
        duration_ms: plan.duration_ms,
        opening_circulating: plan.opening_circulating,
        human_snapshot: plan.human.snapshot,
        service: allocations(&plan.optional_grants, Channel::Service),
        treasury: allocations(&plan.optional_grants, Channel::TreasuryContribution),
    };
    let expected = match plan_scalable_epoch(&request, policy) {
        Ok(p) => p,
        Err(e) => {
            return Err(e);
        },
    };
    proof {
        lemma_agree_gives_shape(expected, *plan, request.service@, request.treasury@, *policy);
    }
    if !same_plan(&expected, plan) {
        return Err(EconomyError::InvalidEpochPlan);
    }
    Ok(())
}

/// The positions that applying `plan` at policy time `end` adds.
pub open spec fn plan_positions(plan: ScalableEpochPlan, end: u128) -> Seq<VestingPosition> {
    seq![
        VestingPosition {
            epoch: plan.epoch,
            subject: VestingSubject::HumanSnapshot(plan.human.snapshot),
            channel: Channel::HumanShare,
            amount: plan.human.issued,
            starts_at_policy_ms: end,
            duration_ms: plan.human.vesting_ms,
        },
    ] + plan.optional_grants@.map_values(
        |g: VestingGrant|
            VestingPosition {
                epoch: plan.epoch,
                subject: VestingSubject::Beneficiary(g.beneficiary),
                channel: g.channel,
                amount: g.amount,
                starts_at_policy_ms: end,
                duration_ms: g.vesting_ms,
            },
    )
}

pub(crate) fn copy_position(p: &VestingPosition) -> (c: VestingPosition)
    ensures
        c == *p,
{
    let subject = match &p.subject {
        VestingSubject::HumanSnapshot(s) => VestingSubject::HumanSnapshot(*s),
        VestingSubject::Beneficiary(b) => VestingSubject::Beneficiary(b.clone()),
    };
    VestingPosition {
        epoch: p.epoch,
        subject,
        channel: p.channel,
        amount: p.amount,
        starts_at_policy_ms: p.starts_at_policy_ms,
        duration_ms: p.duration_ms,
    }
}

impl MonetaryLedger {
    pub closed spec fn genesis(&self) -> Amount {
        self.genesis_circulating
    }

    pub closed spec fn issued(&self) -> Amount {
        self.total_issued
    }

    pub closed spec fn policy_time(&self) -> u128 {
        self.policy_time_ms
    }

    pub closed spec fn last(&self) -> Option<u64> {
        self.last_epoch
    }

    pub closed spec fn position_seq(&self) -> Seq<VestingPosition> {
        self.positions@
    }

    /// Genesis supply plus everything vested so far.
    pub open spec fn circulating_value(&self) -> nat {
        self.genesis().micro() as nat + vested_sum(
            self.position_seq(),
            self.policy_time(),
            self.position_seq().len(),
        )
    }

    /// What every ledger reached by `new` and accepted epochs holds: the
    /// issued total is the sum of the positions, every position has started
    /// by the ledger's policy time and vests to a proper subject, no
    /// position comes from a later epoch than the last one, and before the
    /// first epoch nothing is issued, no time has passed and there are no
    /// positions.
    pub open spec fn well_formed(&self) -> bool {
        let ps = self.position_seq();
        &&& self.issued().micro() == micro_sum(position_amounts(ps), ps.len())
        &&& forall|i: int|
            0 <= i < ps.len() ==> (#[trigger] ps[i]).starts_at_policy_ms <= self.policy_time()
                && subject_ok(ps[i].subject)
        &&& forall|i: int|
            0 <= i < ps.len() ==> self.last() is Some && (#[trigger] ps[i]).epoch
                <= self.last()->Some_0
        &&& self.last() is None ==> (self.issued().micro() == 0 && self.policy_time() == 0
            && ps.len() == 0)
    }

    /// Law: in a well-formed ledger what circulates never exceeds the total
    /// supply, since no position has vested more than it was issued; so
    /// wherever the total supply is representable, the locked supply is
    /// too.
    pub proof fn lemma_circulating_within_total(l: MonetaryLedger)
        requires
            l.well_formed(),
        ensures
            l.circulating_value() <= l.genesis().micro() + l.issued().micro(),
    {
        lemma_vested_within_issued(l.position_seq(), l.policy_time(), l.position_seq().len());
    }

    /// The ledger holding exactly these parts.
    pub closed spec fn has_parts(
        &self,
        genesis: Amount,
        issued: Amount,
        time: u128,
        last: Option<u64>,
        positions: Seq<VestingPosition>,
    ) -> bool {
        &&& self.genesis_circulating == genesis
        &&& self.total_issued == issued
        &&& self.policy_time_ms == time
        &&& self.last_epoch == last
        &&& self.positions@ == positions
    }

    pub(crate) fn from_parts(
        genesis_circulating: Amount,
        total_issued: Amount,
        policy_time_ms: u128,
        last_epoch: Option<u64>,
        positions: Vec<VestingPosition>,
    ) -> (l: MonetaryLedger)
        ensures
            l.genesis() == genesis_circulating,
            l.issued() == total_issued,
            l.policy_time() == policy_time_ms,
            l.last() == last_epoch,
            l.position_seq() == positions@,
    {
        MonetaryLedger { genesis_circulating, total_issued, policy_time_ms, last_epoch, positions }
    }

    pub fn new(genesis_circulating: Amount) -> (l: MonetaryLedger)
        ensures
            l.genesis() == genesis_circulating,
            l.issued().micro() == 0,
            l.policy_time() == 0,
            l.last() is None,
            l.position_seq().len() == 0,
            l.well_formed(),
    {
        MonetaryLedger {
            genesis_circulating,
            total_issued: Amount::from_micro(0),
            policy_time_ms: 0,
            last_epoch: None,
            positions: Vec::new(),
        }
    }

    pub(crate) fn genesis_amount(&self) -> (a: Amount)
        ensures
            a == self.genesis(),
    {
        self.genesis_circulating
    }

    pub fn policy_time_ms(&self) -> (t: u128)
        ensures
            t == self.policy_time(),
    {
        self.policy_time_ms
    }

    pub fn last_epoch(&self) -> (e: Option<u64>)
        ensures
            e == self.last(),
    {
        self.last_epoch
    }

    pub fn total_issued(&self) -> (a: Amount)
        ensures
            a == self.issued(),
    {
        self.total_issued
    }

    pub fn total_supply(&self) -> (r: Result<Amount, EconomyError>)
        ensures
            self.genesis().micro() + self.issued().micro() <= u128::MAX ==> (r matches Ok(a)
                && a.micro() == self.genesis().micro() + self.issued().micro()),
            self.genesis().micro() + self.issued().micro() > u128::MAX ==> r == Err::<
                Amount,
                EconomyError,
            >(EconomyError::Overflow),
    {
        self.genesis_circulating.checked_add(self.total_issued)
    }

    pub fn circulating_supply(&self) -> (r: Result<Amount, EconomyError>)
        ensures
            self.circulating_value() <= u128::MAX ==> (r matches Ok(a) && a.micro()
                == self.circulating_value()),
            self.circulating_value() > u128::MAX ==> r == Err::<Amount, EconomyError>(
                EconomyError::Overflow,
            ),
    {
        let mut circulating = self.genesis_circulating;
        let mut i: usize = 0;
        while i < self.positions.len()
            invariant
                i <= self.positions@.len(),
                circulating.micro() == self.genesis().micro() + vested_sum(
                    self.positions@,
                    self.policy_time_ms,
                    i as nat,
                ),
            decreases self.positions@.len() - i,
        {
            let v = match self.positions[i].vested_at(self.policy_time_ms) {
                Ok(v) => v,
                Err(e) => {
                    return Err(e);
                },
            };
            circulating = match circulating.checked_add(v) {
                Ok(c) => c,
                Err(e) => {
                    proof {
                        lemma_vested_sum_mono(
                            self.positions@,
                            self.policy_time_ms,
                            (i + 1) as nat,
                            self.positions@.len(),
                        );
                    }
                    return Err(e);
                },
            };
            i = i + 1;
        }
        Ok(circulating)
    }

    pub fn locked_supply(&self) -> (r: Result<Amount, EconomyError>)
        ensures
            self.genesis().micro() + self.issued().micro() > u128::MAX
                || self.circulating_value() > u128::MAX ==> r == Err::<Amount, EconomyError>(
                EconomyError::Overflow,
            ),
            self.genesis().micro() + self.issued().micro() <= u128::MAX && self.circulating_value()
                <= u128::MAX && self.circulating_value() > self.genesis().micro()
                + self.issued().micro() ==> r == Err::<Amount, EconomyError>(
                EconomyError::Underflow,
            ),
            self.genesis().micro() + self.issued().micro() <= u128::MAX && self.circulating_value()
                <= self.genesis().micro() + self.issued().micro() ==> (r matches Ok(a) && a.micro()
                == self.genesis().micro() + self.issued().micro() - self.circulating_value()),
    {
        let total = match self.total_supply() {
            Ok(t) => t,
            Err(e) => {
                return Err(e);
            },
        };
        let circulating = match self.circulating_supply() {
            Ok(c) => c,
            Err(e) => {
                return Err(e);
            },
        };
        total.checked_sub(circulating)
    }

    pub fn positions(&self) -> (p: &[VestingPosition])
        ensures
            p@ == self.position_seq(),
    {
        self.positions.as_slice()
    }

    /// Validate and apply one next epoch atomically, returning the new
    /// ledger.
    pub fn apply_epoch(&self, plan: &ScalableEpochPlan, policy: &IssuancePolicy) -> (r: Result<
        MonetaryLedger,
        EconomyError,
    >)
        ensures
            plan.epoch != next_epoch(self.last()) ==> r == Err::<MonetaryLedger, EconomyError>(
                EconomyError::UnexpectedEpoch,
            ),
            plan.epoch == next_epoch(self.last()) && (plan.duration_ms == 0 || plan.duration_ms
                > YEAR_MS) ==> r == Err::<MonetaryLedger, EconomyError>(
                EconomyError::InvalidDuration,
            ),
            plan.epoch == next_epoch(self.last()) && 0 < plan.duration_ms <= YEAR_MS && (
            self.circulating_value() > u128::MAX) ==> r == Err::<MonetaryLedger, EconomyError>(
                EconomyError::Overflow,
            ),
            plan.epoch == next_epoch(self.last()) && 0 < plan.duration_ms <= YEAR_MS
                && self.circulating_value() <= u128::MAX && plan.opening_circulating.micro()
                != self.circulating_value() ==> r == Err::<MonetaryLedger, EconomyError>(
                EconomyError::OpeningSupplyMismatch,
            ),
            plan.epoch == next_epoch(self.last()) && 0 < plan.duration_ms <= YEAR_MS
                && plan.opening_circulating.micro() == self.circulating_value() ==> ({
                let end = self.policy_time() + plan.duration_ms;
                let issued = self.issued().micro() + plan.total_issued.micro();
                match plan_shape_error(*plan, *policy) {
                    Some(e) => r == Err::<MonetaryLedger, EconomyError>(e),
                    None => if end > u128::MAX || issued > u128::MAX {
                        r == Err::<MonetaryLedger, EconomyError>(EconomyError::Overflow)
                    } else {
                        r matches Ok(next) && next.genesis() == self.genesis()
                            && next.issued().micro() == issued && next.policy_time() == end
                            && next.last() == Some(plan.epoch) && next.position_seq()
                            == self.position_seq() + plan_positions(*plan, end as u128)
                    },
                }
            }),
            r matches Ok(next) ==> (self.well_formed() ==> next.well_formed()),
    {
        let expected_epoch = match self.last_epoch {
            None => 0,
            Some(e) => e.saturating_add(1),
        };
        if plan.epoch != expected_epoch {
            return Err(EconomyError::UnexpectedEpoch);
        }
        if plan.duration_ms == 0 || plan.duration_ms > YEAR_MS {
            return Err(EconomyError::InvalidDuration);
        }
        let circulating = match self.circulating_supply() {
            Ok(c) => c,
            Err(e) => {
                return Err(e);
            },
        };
        if plan.opening_circulating.as_micro() != circulating.as_micro() {
            return Err(EconomyError::OpeningSupplyMismatch);
        }
        match validate_plan_shape(plan, policy) {
            Ok(()) => {},
            Err(e) => {
                return Err(e);
            },
        }
        let end = match self.policy_time_ms.checked_add(plan.duration_ms as u128) {
            Some(t) => t,
            None => {
                return Err(EconomyError::Overflow);
            },
        };
        let total_issued = match self.total_issued.checked_add(plan.total_issued) {
            Ok(a) => a,
            Err(e) => {
                return Err(e);
            },
        };
        let mut positions: Vec<VestingPosition> = Vec::new();
        let mut i: usize = 0;
        while i < self.positions.len()
            invariant
                i <= self.positions@.len(),
                positions@ == self.positions@.subrange(0, i as int),
            decreases self.positions@.len() - i,
        {
            positions.push(copy_position(&self.positions[i]));
            i = i + 1;
            assert(positions@ =~= self.positions@.subrange(0, i as int));
        }
        assert(positions@ =~= self.positions@);
        positions.push(
            VestingPosition {
                epoch: plan.epoch,
                subject: VestingSubject::HumanSnapshot(plan.human.snapshot),
                channel: Channel::HumanShare,
                amount: plan.human.issued,
                starts_at_policy_ms: end,
                duration_ms: plan.human.vesting_ms,
            },
        );
        let ghost base = positions@;
        let mut j: usize = 0;
        while j < plan.optional_grants.len()
            invariant
                j <= plan.optional_grants@.len(),
                positions@ == base + plan.optional_grants@.subrange(0, j as int).map_values(
                    |g: VestingGrant|
                        VestingPosition {
                            epoch: plan.epoch,
                            subject: VestingSubject::Beneficiary(g.beneficiary),
                            channel: g.channel,
                            amount: g.amount,
                            starts_at_policy_ms: end,
                            duration_ms: g.vesting_ms,
                        },
                ),
            decreases plan.optional_grants@.len() - j,
        {
            let g = &plan.optional_grants[j];
            positions.push(
                VestingPosition {
                    epoch: plan.epoch,
                    subject: VestingSubject::Beneficiary(g.beneficiary.clone()),
                    channel: g.channel,
                    amount: g.amount,
                    starts_at_policy_ms: end,
                    duration_ms: g.vesting_ms,
                },
            );
            j = j + 1;
            assert(positions@ =~= base + plan.optional_grants@.subrange(0, j as int).map_values(
                |g: VestingGrant|
                    VestingPosition {
                        epoch: plan.epoch,
                        subject: VestingSubject::Beneficiary(g.beneficiary),
                        channel: g.channel,
                        amount: g.amount,
                        starts_at_policy_ms: end,
                        duration_ms: g.vesting_ms,
                    },
            ));
        }
        assert(plan.optional_grants@.subrange(0, plan.optional_grants@.len() as int)
            =~= plan.optional_grants@);
        assert(positions@ =~= self.positions@ + plan_positions(*plan, end));
        let next = MonetaryLedger {
            genesis_circulating: self.genesis_circulating,
            total_issued,
            policy_time_ms: end,
            last_epoch: Some(plan.epoch),
            positions,
        };
        proof {
            if self.well_formed() {
                lemma_apply_keeps_well_formed(*self, next, *plan, *policy);
            }
        }
        Ok(next)
    }
}

proof fn lemma_vested_sum_mono(positions: Seq<VestingPosition>, t: u128, a: nat, b: nat)
    requires
        a <= b,
    ensures
        vested_sum(positions, t, a) <= vested_sum(positions, t, b),
    decreases b - a,
{
    if b > a {
        lemma_vested_sum_mono(positions, t, a, (b - 1) as nat);
    }
}

proof fn lemma_micro_sum_prefix(s: Seq<u128>, t: Seq<u128>, n: nat)
    requires
        n <= s.len(),
        n <= t.len(),
        forall|i: int| 0 <= i < n ==> s[i] == t[i],
    ensures
        micro_sum(s, n) == micro_sum(t, n),
    decreases n,
{
    if n > 0 {
        lemma_micro_sum_prefix(s, t, (n - 1) as nat);
    }
}

pub(crate) proof fn lemma_micro_sum_mono(s: Seq<u128>, a: nat, b: nat)
    requires
        a <= b,
    ensures
        micro_sum(s, a) <= micro_sum(s, b),
    decreases b - a,
{
    if b > a {
        lemma_micro_sum_mono(s, a, (b - 1) as nat);
    }
}

proof fn lemma_micro_sum_concat(a: Seq<u128>, b: Seq<u128>, k: nat)
    requires
        k <= b.len(),
    ensures
        micro_sum(a + b, a.len() + k) == micro_sum(a, a.len()) + micro_sum(b, k),
    decreases k,
{
    if k == 0 {
        lemma_micro_sum_prefix(a + b, a, a.len());
    } else {
        lemma_micro_sum_concat(a, b, (k - 1) as nat);
        assert((a + b)[a.len() + k - 1] == b[k - 1]);
    }
}

proof fn lemma_allocation_prefix_sum(allocs: Seq<Allocation>, n: nat)
    requires
        n <= allocs.len(),
        allocation_prefix(allocs, n) is Ok,
    ensures
        allocation_prefix(allocs, n) == Ok::<nat, EconomyError>(
            micro_sum(allocation_amounts(allocs), n),
        ),
        forall|j: int| 0 <= j < n ==> (#[trigger] allocs[j]).beneficiary@.len() != 0,
    decreases n,
{
    if n > 0 {
        lemma_allocation_prefix_sum(allocs, (n - 1) as nat);
        assert(!beneficiary_repeats(allocs, n - 1));
    }
}

proof fn lemma_plan_positions_well_formed(plan: ScalableEpochPlan, policy: IssuancePolicy, end: u128)
    requires
        plan_shape_error(plan, policy) is None,
    ensures
        ({
            let np = plan_positions(plan, end);
            &&& micro_sum(position_amounts(np), np.len()) == plan.total_issued.micro()
            &&& forall|i: int|
                0 <= i < np.len() ==> (#[trigger] np[i]).starts_at_policy_ms == end
                    && np[i].epoch == plan.epoch && subject_ok(np[i].subject)
        }),
{
    let g = plan.optional_grants@;
    let d = plan.duration_ms;
    let opening = plan.opening_circulating;
    let service = channel_allocs(g, Channel::Service, g.len());
    let treasury = channel_allocs(g, Channel::TreasuryContribution, g.len());
    assert(scalable_error_of(d, opening, plan.human.snapshot, service, treasury, policy) is None);
    assert(is_scalable_plan_of(
        plan,
        plan.epoch,
        d,
        opening,
        plan.human.snapshot,
        service,
        treasury,
        policy,
    ));
    lemma_allocation_prefix_sum(service, service.len());
    lemma_allocation_prefix_sum(treasury, treasury.len());
    let views = grant_views(g);
    let gf = grants_for(service, Channel::Service, 0) + grants_for(
        treasury,
        Channel::TreasuryContribution,
        policy.treasury_vesting_ms,
    );
    assert(views == gf);
    assert(views.len() == g.len());
    let np = plan_positions(plan, end);
    let sa = allocation_amounts(service);
    let ta = allocation_amounts(treasury);
    let h = plan.human.issued.micro();
    let target = seq![h] + (sa + ta);
    assert(position_amounts(np) =~= target) by {
        assert forall|i: int| 0 <= i < target.len() implies position_amounts(np)[i] == target[i] by {
            if i > 0 {
                assert(views[i - 1] == gf[i - 1]);
                assert(views[i - 1] == g[i - 1]@);
                if i - 1 < service.len() {
                    assert((sa + ta)[i - 1] == sa[i - 1]);
                } else {
                    assert((sa + ta)[i - 1] == ta[i - 1 - service.len()]);
                }
            }
        }
    }
    lemma_micro_sum_concat(seq![h], sa + ta, (sa + ta).len());
    lemma_micro_sum_concat(sa, ta, ta.len());
    assert(micro_sum(seq![h], 0) == 0);
    assert(seq![h][0] == h);
    assert(micro_sum(seq![h], 1) == h);
    assert forall|i: int| 0 <= i < np.len() implies (#[trigger] np[i]).starts_at_policy_ms == end
        && np[i].epoch == plan.epoch && subject_ok(np[i].subject) by {
        if i > 0 {
            assert(views[i - 1] == gf[i - 1]);
            assert(views[i - 1] == g[i - 1]@);
            if i - 1 < service.len() {
                assert(service[i - 1].beneficiary@.len() != 0);
            } else {
                assert(treasury[i - 1 - service.len()].beneficiary@.len() != 0);
            }
        }
    }
}

proof fn lemma_apply_keeps_well_formed(
    l: MonetaryLedger,
    next: MonetaryLedger,
    plan: ScalableEpochPlan,
    policy: IssuancePolicy,
)
    requires
        l.well_formed(),
        plan_shape_error(plan, policy) is None,
        plan.epoch == next_epoch(l.last()),
        l.policy_time() <= next.policy_time(),
        next.issued().micro() == l.issued().micro() + plan.total_issued.micro(),
        next.last() == Some(plan.epoch),
        next.position_seq() == l.position_seq() + plan_positions(plan, next.policy_time()),
    ensures
        next.well_formed(),
{
    let old_ps = l.position_seq();
    let np = plan_positions(plan, next.policy_time());
    let ps = next.position_seq();
    lemma_plan_positions_well_formed(plan, policy, next.policy_time());
    assert(position_amounts(ps) =~= position_amounts(old_ps) + position_amounts(np));
    lemma_micro_sum_concat(position_amounts(old_ps), position_amounts(np), np.len());
    assert forall|i: int| 0 <= i < ps.len() implies (#[trigger] ps[i]).starts_at_policy_ms
        <= next.policy_time() && subject_ok(ps[i].subject) && ps[i].epoch <= plan.epoch by {
        if i < old_ps.len() {
            assert(ps[i] == old_ps[i]);
        } else {
            assert(ps[i] == np[i - old_ps.len()]);
        }
    }
}

pub(crate) proof fn lemma_vested_at_most_amount(p: VestingPosition, t: u128)
    ensures
        vested_value(p, t) <= p.amount.micro(),
{
    if p.duration_ms != 0 {
        let elapsed: nat = if t >= p.starts_at_policy_ms {
            (t - p.starts_at_policy_ms) as nat
        } else {
            0
        };
        if elapsed < p.duration_ms {
            let a = p.amount.micro() as nat;
            let d = p.duration_ms as nat;
            assert((a * elapsed) / d <= a) by (nonlinear_arith)
                requires
                    elapsed < d,
                    d > 0,
            {
                assert(a * elapsed <= a * d);
                vstd::arithmetic::div_mod::lemma_div_is_ordered((a * elapsed) as int, (a * d) as int, d as int);
                vstd::arithmetic::div_mod::lemma_div_multiples_vanish(a as int, d as int);
            }
        }
    }
}

pub(crate) proof fn lemma_vested_within_issued(ps: Seq<VestingPosition>, t: u128, n: nat)
    requires
        n <= ps.len(),
    ensures
        vested_sum(ps, t, n) <= micro_sum(position_amounts(ps), n),
    decreases n,
{
    if n > 0 {
        lemma_vested_within_issued(ps, t, (n - 1) as nat);
        lemma_vested_at_most_amount(ps[n - 1], t);
        assert(position_amounts(ps)[n - 1] == ps[n - 1].amount.micro());
    }
}

} // verus!
