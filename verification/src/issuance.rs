//! Integer-only issuance policy: per-epoch caps prorated from the opening
//! supply, the equal Human Share, and the optional service and treasury
//! channels.
use crate::amount::Amount;
use crate::economy_error::EconomyError;
use crate::lexorder::{compare_strings, lemma_lex_asym, lemma_lex_irrefl, lemma_lex_trans, str_lt, Cmp};
use vstd::prelude::*;

verus! {

/// Parts per million in one whole.
pub const MILLION: u128 = 1_000_000;

/// Milliseconds in a 365-day year.
pub const YEAR_MS: u64 = 31_536_000_000;

#[derive(Debug, Clone, Copy, PartialEq, Eq, Structural)]
pub enum Channel {
    HumanShare,
    Service,
    TreasuryContribution,
}

#[derive(Debug, Clone, PartialEq, Eq)]
pub struct Allocation {
    pub beneficiary: String,
    pub amount: Amount,
}

/// What an allocation says: who, and how much.
pub struct AllocationView {
    pub beneficiary: Seq<char>,
    pub amount: u128,
}

impl View for Allocation {
    type V = AllocationView;

    open spec fn view(&self) -> AllocationView {
        AllocationView { beneficiary: self.beneficiary@, amount: self.amount.micro() }
    }
}

#[derive(Debug, Clone, PartialEq, Eq)]
pub struct VestingGrant {
    pub beneficiary: String,
    pub channel: Channel,
    pub amount: Amount,
    pub vesting_ms: u64,
}

/// What a grant says.
pub struct GrantView {
    pub beneficiary: Seq<char>,
    pub channel: Channel,
    pub amount: u128,
    pub vesting_ms: u64,
}

impl View for VestingGrant {
    type V = GrantView;

    open spec fn view(&self) -> GrantView {
        GrantView {
            beneficiary: self.beneficiary@,
            channel: self.channel,
            amount: self.amount.micro(),
            vesting_ms: self.vesting_ms,
        }
    }
}

#[derive(Debug, Clone, PartialEq, Eq)]
pub struct IssuancePolicy {
    pub total_ceiling_ppm: u32,
    pub human_floor_ppm: u32,
    pub service_ceiling_ppm: u32,
    pub treasury_ceiling_ppm: u32,
    pub human_vesting_ms: u64,
    pub treasury_vesting_ms: u64,
}

impl IssuancePolicy {
    /// The channels fit under the total ceiling, the ceiling is at most one
    /// whole, and both vesting periods are positive.
    pub open spec fn valid(&self) -> bool {
        &&& self.human_floor_ppm + self.service_ceiling_ppm + self.treasury_ceiling_ppm
            <= self.total_ceiling_ppm
        &&& self.total_ceiling_ppm <= MILLION
        &&& self.human_vesting_ms > 0
        &&& self.treasury_vesting_ms > 0
    }

    /// The accepted envelope: 3% total, of which at least 2% to humans,
    /// at most 0.75% to services and 0.25% to the treasury.
    pub fn d0074() -> (p: IssuancePolicy)
        ensures
            p.total_ceiling_ppm == 30_000,
            p.human_floor_ppm == 20_000,
            p.service_ceiling_ppm == 7_500,
            p.treasury_ceiling_ppm == 2_500,
            p.human_vesting_ms == YEAR_MS,
            p.treasury_vesting_ms == 7_776_000_000,
            p.valid(),
    {
        IssuancePolicy {
            total_ceiling_ppm: 30_000,
            human_floor_ppm: 20_000,
            service_ceiling_ppm: 7_500,
            treasury_ceiling_ppm: 2_500,
            human_vesting_ms: YEAR_MS,
            treasury_vesting_ms: 7_776_000_000,
        }
    }

    pub(crate) fn validate(&self) -> (r: Result<(), EconomyError>)
        ensures
            r is Ok <==> self.valid(),
            r matches Err(e) ==> e == EconomyError::InvalidPolicy,
    {
        let channels = match self.human_floor_ppm.checked_add(self.service_ceiling_ppm) {
            Some(v) => match v.checked_add(self.treasury_ceiling_ppm) {
                Some(w) => w,
                None => {
                    return Err(EconomyError::InvalidPolicy);
                },
            },
            None => {
                return Err(EconomyError::InvalidPolicy);
            },
        };
        if channels > self.total_ceiling_ppm || self.total_ceiling_ppm > 1_000_000
            || self.human_vesting_ms == 0 || self.treasury_vesting_ms == 0 {
            return Err(EconomyError::InvalidPolicy);
        }
        Ok(())
    }
}

/// Finalized personhood-set commitment.
#[derive(Debug, Clone, Copy, PartialEq, Eq)]
pub struct HumanSnapshot {
    pub root: [u8; 32],
    pub eligible_count: u64,
}

/// One aggregate equal-share instruction.
#[derive(Debug, Clone, Copy, PartialEq, Eq)]
pub struct HumanSharePlan {
    pub epoch: u64,
    pub snapshot: HumanSnapshot,
    pub cap: Amount,
    pub per_human: Amount,
    pub issued: Amount,
    pub unissued_remainder: Amount,
    pub vesting_ms: u64,
}

/// Euclid's greatest common divisor.
pub open spec fn gcd_spec(a: nat, b: nat) -> nat
    decreases b,
{
    if b == 0 {
        a
    } else {
        gcd_spec(b, a % b)
    }
}

/// The denominator of a prorated amount: parts per million times a year.
pub open spec fn prorate_denominator() -> nat {
    MILLION as nat * YEAR_MS as nat
}

/// The three factors and the denominator after cancelling, in turn, the
/// common divisor of each factor with what is left of the denominator.
pub open spec fn prorate_reduced(supply: nat, ppm: nat, duration: nat) -> (nat, nat, nat, nat) {
    let den0 = prorate_denominator();
    let g0 = gcd_spec(supply, den0);
    let s1 = supply / g0;
    let den1 = den0 / g0;
    let g1 = gcd_spec(ppm, den1);
    let p1 = ppm / g1;
    let den2 = den1 / g1;
    let g2 = gcd_spec(duration, den2);
    let d1 = duration / g2;
    let den3 = den2 / g2;
    (s1, p1, d1, den3)
}

/// Whether the reduced product overflows `u128`.
pub open spec fn prorate_overflows(supply: nat, ppm: nat, duration: nat) -> bool {
    let (s1, p1, d1, den) = prorate_reduced(supply, ppm, duration);
    s1 * p1 > u128::MAX || s1 * p1 * d1 > u128::MAX
}

/// `floor(supply * ppm * duration / (MILLION * YEAR_MS))`.
pub open spec fn prorated_value(supply: nat, ppm: nat, duration: nat) -> nat {
    (supply * ppm * duration) / prorate_denominator()
}

proof fn lemma_gcd(a: nat, b: nat) -> (k: (nat, nat))
    ensures
        a == k.0 * gcd_spec(a, b),
        b == k.1 * gcd_spec(a, b),
        b > 0 ==> gcd_spec(a, b) > 0,
    decreases b,
{
    if b == 0 {
        (1, 0)
    } else {
        let r = a % b;
        let q = a / b;
        vstd::arithmetic::div_mod::lemma_fundamental_div_mod(a as int, b as int);
        vstd::arithmetic::div_mod::lemma_mod_bound(a as int, b as int);
        let (kb, kr) = lemma_gcd(b, r);
        let g = gcd_spec(b, r);
        assert(a == (q * kb + kr) * g) by (nonlinear_arith)
            requires
                a == b * q + r,
                b == kb * g,
                r == kr * g,
        ;
        (q * kb + kr, kb)
    }
}

proof fn lemma_div_exact(x: nat, k: nat, g: nat)
    requires
        x == k * g,
        g > 0,
    ensures
        x / g == k,
{
    vstd::arithmetic::div_mod::lemma_fundamental_div_mod_converse(x as int, g as int, k as int, 0);
}

/// Dividing a positive multiple of `g` by `g` leaves a positive quotient.
proof fn lemma_cofactor_pos(x: nat, g: nat, k: nat)
    requires
        x > 0,
        x == k * g,
    ensures
        g > 0,
        x / g > 0,
        x == (x / g) * g,
{
    assert(g > 0 && k > 0) by (nonlinear_arith)
        requires
            x == k * g,
            x > 0,
    ;
    lemma_div_exact(x, k, g);
}

proof fn lemma_floor_eq(x: nat, d0: nat, y: nat, d1: nat)
    requires
        d0 > 0,
        d1 > 0,
        x * d1 == y * d0,
    ensures
        x / d0 == y / d1,
{
    let q = y / d1;
    let r = y % d1;
    vstd::arithmetic::div_mod::lemma_fundamental_div_mod(y as int, d1 as int);
    vstd::arithmetic::div_mod::lemma_mod_bound(y as int, d1 as int);
    assert(q * d0 <= x < (q + 1) * d0) by (nonlinear_arith)
        requires
            y == d1 * q + r,
            0 <= r < d1,
            x * d1 == y * d0,
            d0 > 0,
            d1 > 0,
    ;
    let r2 = x - q * d0;
    assert(x == q * d0 + r2);
    assert((q + 1) * d0 == q * d0 + d0) by (nonlinear_arith);
    vstd::arithmetic::div_mod::lemma_fundamental_div_mod_converse(x as int, d0 as int, q as int, r2);
}

proof fn lemma_prorate_exact(supply: nat, ppm: nat, duration: nat)
    ensures
        ({
            let (s1, p1, d1, den) = prorate_reduced(supply, ppm, duration);
            &&& den > 0
            &&& (s1 * p1 * d1) / den == prorated_value(supply, ppm, duration)
        }),
{
    let den0 = prorate_denominator();
    let g0 = gcd_spec(supply, den0);
    let (ka, kb) = lemma_gcd(supply, den0);
    let s1 = supply / g0;
    let den1 = den0 / g0;
    lemma_div_exact(supply, ka, g0);
    lemma_div_exact(den0, kb, g0);
    assert(den1 > 0) by (nonlinear_arith)
        requires
            den0 == kb * g0,
            den0 > 0,
            den1 == kb,
    ;
    let g1 = gcd_spec(ppm, den1);
    let (kc, kd) = lemma_gcd(ppm, den1);
    let p1 = ppm / g1;
    let den2 = den1 / g1;
    lemma_div_exact(ppm, kc, g1);
    lemma_div_exact(den1, kd, g1);
    assert(den2 > 0) by (nonlinear_arith)
        requires
            den1 == kd * g1,
            den1 > 0,
            den2 == kd,
    ;
    let g2 = gcd_spec(duration, den2);
    let (ke, kf) = lemma_gcd(duration, den2);
    let d1 = duration / g2;
    let den3 = den2 / g2;
    lemma_div_exact(duration, ke, g2);
    lemma_div_exact(den2, kf, g2);
    assert(den3 > 0) by (nonlinear_arith)
        requires
            den2 == kf * g2,
            den2 > 0,
            den3 == kf,
    ;
    let x = supply * ppm * duration;
    let x1 = s1 * ppm * duration;
    let x2 = s1 * p1 * duration;
    let y = s1 * p1 * d1;
    lemma_cancel(supply, g0, s1, ppm * duration, den0, den1);
    assert(x == supply * (ppm * duration) && x1 == s1 * (ppm * duration)) by (nonlinear_arith)
        requires
            x == supply * ppm * duration,
            x1 == s1 * ppm * duration,
    ;
    lemma_floor_eq(x, den0, x1, den1);
    lemma_cancel(ppm, g1, p1, s1 * duration, den1, den2);
    assert(x1 == ppm * (s1 * duration) && x2 == p1 * (s1 * duration)) by (nonlinear_arith)
        requires
            x1 == s1 * ppm * duration,
            x2 == s1 * p1 * duration,
    ;
    lemma_floor_eq(x1, den1, x2, den2);
    lemma_cancel(duration, g2, d1, s1 * p1, den2, den3);
    assert(x2 == duration * (s1 * p1) && y == d1 * (s1 * p1)) by (nonlinear_arith)
        requires
            x2 == s1 * p1 * duration,
            y == s1 * p1 * d1,
    ;
    lemma_floor_eq(x2, den2, y, den3);
}

proof fn lemma_cancel(a: nat, g: nat, a1: nat, rest: nat, den: nat, den1: nat)
    requires
        a == a1 * g,
        den == den1 * g,
    ensures
        (a * rest) * den1 == (a1 * rest) * den,
{
    assert((a * rest) * den1 == (a1 * rest) * den) by (nonlinear_arith)
        requires
            a == a1 * g,
            den == den1 * g,
    ;
}

/// Euclid's algorithm.
fn gcd(left: u128, right: u128) -> (g: u128)
    ensures
        g == gcd_spec(left as nat, right as nat),
{
    let mut a = left;
    let mut b = right;
    while b != 0
        invariant
            gcd_spec(a as nat, b as nat) == gcd_spec(left as nat, right as nat),
        decreases b,
    {
        let r = a % b;
        a = b;
        b = r;
    }
    a
}

/// `supply * ppm / 1e6 * duration / YEAR_MS`, exactly floored, computed on
/// factors reduced by their common divisors with the denominator.
fn prorated(supply: Amount, ppm: u32, duration_ms: u64) -> (r: Result<Amount, EconomyError>)
    ensures
        prorate_overflows(supply.micro() as nat, ppm as nat, duration_ms as nat) ==> r == Err::<
            Amount,
            EconomyError,
        >(EconomyError::Overflow),
        !prorate_overflows(supply.micro() as nat, ppm as nat, duration_ms as nat) ==> (r matches Ok(
            a,
        ) && a.micro() == prorated_value(supply.micro() as nat, ppm as nat, duration_ms as nat)),
{
    proof {
        lemma_prorate_exact(supply.micro() as nat, ppm as nat, duration_ms as nat);
        let den0 = prorate_denominator();
        lemma_gcd(supply.micro() as nat, den0);
    }
    let den0: u128 = 31_536_000_000_000_000;
    let s = supply.as_micro();
    let g0 = gcd(s, den0);
    let s1 = s / g0;
    let den1 = den0 / g0;
    proof {
        let (ka, kb) = lemma_gcd(s as nat, den0 as nat);
        assert(den0 == kb * g0);
        lemma_cofactor_pos(den0 as nat, g0 as nat, kb);
        lemma_gcd(ppm as nat, den1 as nat);
    }
    let p = ppm as u128;
    let g1 = gcd(p, den1);
    let p1 = p / g1;
    let den2 = den1 / g1;
    proof {
        let (kc, kd) = lemma_gcd(p as nat, den1 as nat);
        assert(den1 == kd * g1);
        lemma_cofactor_pos(den1 as nat, g1 as nat, kd);
        lemma_gcd(duration_ms as nat, den2 as nat);
    }
    let d = duration_ms as u128;
    let g2 = gcd(d, den2);
    let d1 = d / g2;
    let den3 = den2 / g2;
    proof {
        let (ke, kf) = lemma_gcd(d as nat, den2 as nat);
        assert(den2 == kf * g2);
        lemma_cofactor_pos(den2 as nat, g2 as nat, kf);
    }
    let numerator = match s1.checked_mul(p1) {
        Some(v) => match v.checked_mul(d1) {
            Some(w) => w,
            None => {
                return Err(EconomyError::Overflow);
            },
        },
        None => {
            return Err(EconomyError::Overflow);
        },
    };
    Ok(Amount::from_micro(numerator / den3))
}

/// Every byte of the root is zero: no committed snapshot.
pub open spec fn root_is_blank(root: [u8; 32]) -> bool {
    forall|i: int| 0 <= i < 32 ==> #[trigger] root@[i] == 0u8
}

pub(crate) fn is_blank_root(root: &[u8; 32]) -> (b: bool)
    ensures
        b == root_is_blank(*root),
{
    let mut i: usize = 0;
    while i < 32
        invariant
            i <= 32,
            root@.len() == 32,
            forall|j: int| 0 <= j < i ==> root@[j] == 0u8,
        decreases 32 - i,
    {
        if root[i] != 0 {
            return false;
        }
        i = i + 1;
    }
    true
}

/// The first check that planning the Human Share fails, if any.
pub open spec fn human_share_error(
    duration_ms: u64,
    opening_circulating: Amount,
    snapshot: HumanSnapshot,
    policy: IssuancePolicy,
) -> Option<EconomyError> {
    if !policy.valid() {
        Some(EconomyError::InvalidPolicy)
    } else if duration_ms == 0 || duration_ms > YEAR_MS {
        Some(EconomyError::InvalidDuration)
    } else if snapshot.eligible_count == 0 || root_is_blank(snapshot.root) {
        Some(EconomyError::InvalidSnapshot)
    } else if prorate_overflows(
        opening_circulating.micro() as nat,
        policy.human_floor_ppm as nat,
        duration_ms as nat,
    ) {
        Some(EconomyError::Overflow)
    } else {
        None
    }
}

/// The equal Human Share of one epoch, as one aggregate instruction over a
/// committed snapshot: the prorated cap, split equally and floored, with
/// the remainder left unissued.
pub fn plan_human_share(
    epoch: u64,
    duration_ms: u64,
    opening_circulating: Amount,
    snapshot: HumanSnapshot,
    policy: &IssuancePolicy,
) -> (r: Result<HumanSharePlan, EconomyError>)
    ensures
        ({
            match human_share_error(duration_ms, opening_circulating, snapshot, *policy) {
                Some(e) => r == Err::<HumanSharePlan, EconomyError>(e),
                None => r is Ok,
            }
        }),
        r matches Ok(plan) ==> {
            let cap = prorated_value(
                opening_circulating.micro() as nat,
                policy.human_floor_ppm as nat,
                duration_ms as nat,
            );
            &&& plan.epoch == epoch
            &&& plan.snapshot == snapshot
            &&& plan.cap.micro() == cap
            &&& plan.per_human.micro() == cap / (snapshot.eligible_count as nat)
            &&& plan.issued.micro() == (cap / (snapshot.eligible_count as nat))
                * snapshot.eligible_count
            &&& plan.unissued_remainder.micro() == cap % (snapshot.eligible_count as nat)
            &&& plan.vesting_ms == policy.human_vesting_ms
        },
{
    match policy.validate() {
        Ok(()) => {},
        Err(e) => {
            return Err(e);
        },
    }
    if duration_ms == 0 || duration_ms > YEAR_MS {
        return Err(EconomyError::InvalidDuration);
    }
    if snapshot.eligible_count == 0 || is_blank_root(&snapshot.root) {
        return Err(EconomyError::InvalidSnapshot);
    }
    let cap = match prorated(opening_circulating, policy.human_floor_ppm, duration_ms) {
        Ok(c) => c,
        Err(e) => {
            return Err(e);
        },
    };
    let count = snapshot.eligible_count as u128;
    let per = cap.as_micro() / count;
    proof {
        vstd::arithmetic::div_mod::lemma_fundamental_div_mod(cap.micro() as int, count as int);
        vstd::arithmetic::div_mod::lemma_mod_bound(cap.micro() as int, count as int);
        assert(per * count == count * per) by (nonlinear_arith);
    }
    let issued_micro = match per.checked_mul(count) {
        Some(v) => v,
        None => {
            return Err(EconomyError::Overflow);
        },
    };
    let per_human = Amount::from_micro(per);
    let issued = Amount::from_micro(issued_micro);
    let unissued_remainder = match cap.checked_sub(issued) {
        Ok(a) => a,
        Err(e) => {
            return Err(e);
        },
    };
    Ok(
        HumanSharePlan {
            epoch,
            snapshot,
            cap,
            per_human,
            issued,
            unissued_remainder,
            vesting_ms: policy.human_vesting_ms,
        },
    )
}

/// The beneficiary of allocation `i` is empty or repeats an earlier one.
pub open spec fn beneficiary_repeats(allocs: Seq<Allocation>, i: int) -> bool {
    allocs[i].beneficiary@.len() == 0 || exists|j: int|
        0 <= j < i && #[trigger] allocs[j].beneficiary@ == allocs[i].beneficiary@
}

/// Checking the first `n` allocations in order: the running total, or the
/// first refusal.
pub open spec fn allocation_prefix(allocs: Seq<Allocation>, n: nat) -> Result<nat, EconomyError>
    decreases n,
{
    if n == 0 {
        Ok(0)
    } else {
        match allocation_prefix(allocs, (n - 1) as nat) {
            Err(e) => Err(e),
            Ok(total) => if beneficiary_repeats(allocs, n - 1) {
                Err(EconomyError::DuplicateBeneficiary)
            } else if total + allocs[n - 1].amount.micro() > u128::MAX {
                Err(EconomyError::Overflow)
            } else {
                Ok((total + allocs[n - 1].amount.micro()) as nat)
            },
        }
    }
}

/// The total of a channel's allocations, or why they are refused.
pub open spec fn allocation_total(allocs: Seq<Allocation>, cap: nat) -> Result<nat, EconomyError> {
    match allocation_prefix(allocs, allocs.len()) {
        Err(e) => Err(e),
        Ok(total) => if total > cap {
            Err(EconomyError::ChannelExceeded)
        } else {
            Ok(total)
        },
    }
}

proof fn lemma_allocation_prefix_bound(allocs: Seq<Allocation>, n: nat)
    ensures
        allocation_prefix(allocs, n) matches Ok(t) ==> t <= u128::MAX,
    decreases n,
{
    if n > 0 {
        lemma_allocation_prefix_bound(allocs, (n - 1) as nat);
    }
}

proof fn lemma_allocation_err_persists(allocs: Seq<Allocation>, n: nat, m: nat)
    requires
        n <= m,
        allocation_prefix(allocs, n) is Err,
    ensures
        allocation_prefix(allocs, m) == allocation_prefix(allocs, n),
    decreases m - n,
{
    if m > n {
        lemma_allocation_err_persists(allocs, n, (m - 1) as nat);
    }
}

fn validate_allocations(allocations: &[Allocation], cap: Amount) -> (r: Result<Amount, EconomyError>)
    ensures
        ({
            match allocation_total(allocations@, cap.micro() as nat) {
                Err(e) => r == Err::<Amount, EconomyError>(e),
                Ok(t) => r matches Ok(a) && a.micro() == t,
            }
        }),
{
    let mut total = Amount::from_micro(0);
    let mut i: usize = 0;
    while i < allocations.len()
        invariant
            i <= allocations@.len(),
            allocation_prefix(allocations@, i as nat) == Ok::<nat, EconomyError>(
                total.micro() as nat,
            ),
        decreases allocations@.len() - i,
    {
        let a = &allocations[i];
        if a.beneficiary.as_str().is_empty() {
            proof {
                assert(beneficiary_repeats(allocations@, i as int));
                lemma_allocation_err_persists(allocations@, (i + 1) as nat, allocations@.len());
            }
            return Err(EconomyError::DuplicateBeneficiary);
        }
        let mut j: usize = 0;
        while j < i
            invariant
                i < allocations@.len(),
                j <= i,
                a == allocations@[i as int],
                allocation_prefix(allocations@, i as nat) == Ok::<nat, EconomyError>(
                    total.micro() as nat,
                ),
                forall|t: int|
                    0 <= t < j ==> allocations@[t].beneficiary@ != allocations@[i as int].beneficiary@,
            decreases i - j,
        {
            if allocations[j].beneficiary == a.beneficiary {
                proof {
                    assert(allocations@[j as int].beneficiary@ == allocations@[i as int].beneficiary@);
                    assert(beneficiary_repeats(allocations@, i as int));
                    lemma_allocation_err_persists(allocations@, (i + 1) as nat, allocations@.len());
                }
                return Err(EconomyError::DuplicateBeneficiary);
            }
            j = j + 1;
        }
        proof {
            assert(!beneficiary_repeats(allocations@, i as int));
        }
        total = match total.checked_add(a.amount) {
            Ok(t) => t,
            Err(e) => {
                proof {
                    lemma_allocation_err_persists(allocations@, (i + 1) as nat, allocations@.len());
                }
                return Err(e);
            },
        };
        i = i + 1;
    }
    proof {
        lemma_allocation_prefix_bound(allocations@, allocations@.len());
    }
    if total.as_micro() > cap.as_micro() {
        return Err(EconomyError::ChannelExceeded);
    }
    Ok(total)
}

#[derive(Debug, Clone, PartialEq, Eq)]
pub struct ScalableEpochRequest {
    pub epoch: u64,
    pub duration_ms: u64,
    pub opening_circulating: Amount,
    pub human_snapshot: HumanSnapshot,
    pub service: Vec<Allocation>,
    pub treasury: Vec<Allocation>,
}

#[derive(Debug, Clone, PartialEq, Eq)]
pub struct ScalableEpochPlan {
    pub epoch: u64,
    pub duration_ms: u64,
    pub opening_circulating: Amount,
    pub human: HumanSharePlan,
    pub service_cap: Amount,
    pub treasury_cap: Amount,
    pub total_cap: Amount,
    pub service_issued: Amount,
    pub treasury_issued: Amount,
    pub total_issued: Amount,
    /// Service and treasury grants only. Human Share remains aggregate.
    pub optional_grants: Vec<VestingGrant>,
}

/// The grants that a channel's allocations become.
pub open spec fn grants_for(allocs: Seq<Allocation>, channel: Channel, vesting_ms: u64) -> Seq<GrantView> {
    allocs.map_values(
        |a: Allocation|
            GrantView {
                beneficiary: a.beneficiary@,
                channel: channel,
                amount: a.amount.micro(),
                vesting_ms: vesting_ms,
            },
    )
}

/// The views of a list of grants.
pub open spec fn grant_views(grants: Seq<VestingGrant>) -> Seq<GrantView> {
    grants.map_values(|g: VestingGrant| g@)
}

/// The prorated cap of one channel.
pub open spec fn channel_cap(opening: Amount, ppm: u32, duration_ms: u64) -> nat {
    prorated_value(opening.micro() as nat, ppm as nat, duration_ms as nat)
}

/// The Human Share actually issued: the equal share times the population.
pub open spec fn human_issued_value(opening: Amount, snapshot: HumanSnapshot, policy: IssuancePolicy, duration_ms: u64) -> nat {
    let cap = channel_cap(opening, policy.human_floor_ppm, duration_ms);
    (cap / (snapshot.eligible_count as nat)) * (snapshot.eligible_count as nat)
}

/// The first check that planning a scalable epoch fails, if any.
pub open spec fn scalable_epoch_error(request: ScalableEpochRequest, policy: IssuancePolicy) -> Option<
    EconomyError,
> {
    scalable_error_of(
        request.duration_ms,
        request.opening_circulating,
        request.human_snapshot,
        request.service@,
        request.treasury@,
        policy,
    )
}

/// The first check that planning a scalable epoch fails, given the
/// request's parts.
pub open spec fn scalable_error_of(
    d: u64,
    opening: Amount,
    snapshot: HumanSnapshot,
    service_allocs: Seq<Allocation>,
    treasury_allocs: Seq<Allocation>,
    policy: IssuancePolicy,
) -> Option<EconomyError> {
    match human_share_error(d, opening, snapshot, policy) {
        Some(e) => Some(e),
        None => if prorate_overflows(opening.micro() as nat, policy.service_ceiling_ppm as nat, d as nat)
            || prorate_overflows(opening.micro() as nat, policy.treasury_ceiling_ppm as nat, d as nat)
            || prorate_overflows(opening.micro() as nat, policy.total_ceiling_ppm as nat, d as nat) {
            Some(EconomyError::Overflow)
        } else {
            match allocation_total(service_allocs, channel_cap(opening, policy.service_ceiling_ppm, d)) {
                Err(e) => Some(e),
                Ok(service) => match allocation_total(
                    treasury_allocs,
                    channel_cap(opening, policy.treasury_ceiling_ppm, d),
                ) {
                    Err(e) => Some(e),
                    Ok(treasury) => {
                        let total = human_issued_value(opening, snapshot, policy, d)
                            + service + treasury;
                        if total > u128::MAX {
                            Some(EconomyError::Overflow)
                        } else if total > channel_cap(opening, policy.total_ceiling_ppm, d) {
                            Some(EconomyError::TotalExceeded)
                        } else {
                            None
                        }
                    },
                },
            }
        },
    }
}

/// What a successful scalable plan holds, given its request and policy.
pub open spec fn is_scalable_plan_for(
    plan: ScalableEpochPlan,
    request: ScalableEpochRequest,
    policy: IssuancePolicy,
) -> bool {
    is_scalable_plan_of(
        plan,
        request.epoch,
        request.duration_ms,
        request.opening_circulating,
        request.human_snapshot,
        request.service@,
        request.treasury@,
        policy,
    )
}

/// What a successful scalable plan holds, given the request's parts.
pub open spec fn is_scalable_plan_of(
    plan: ScalableEpochPlan,
    epoch: u64,
    d: u64,
    opening: Amount,
    snapshot: HumanSnapshot,
    service_allocs: Seq<Allocation>,
    treasury_allocs: Seq<Allocation>,
    policy: IssuancePolicy,
) -> bool {
    let service = allocation_total(service_allocs, channel_cap(opening, policy.service_ceiling_ppm, d));
    let treasury = allocation_total(
        treasury_allocs,
        channel_cap(opening, policy.treasury_ceiling_ppm, d),
    );
    &&& plan.epoch == epoch
    &&& plan.duration_ms == d
    &&& plan.opening_circulating == opening
    &&& plan.human.epoch == epoch
    &&& plan.human.snapshot == snapshot
    &&& plan.human.cap.micro() == channel_cap(opening, policy.human_floor_ppm, d)
    &&& plan.human.per_human.micro() == channel_cap(opening, policy.human_floor_ppm, d) / (
    snapshot.eligible_count as nat)
    &&& plan.human.issued.micro() == human_issued_value(opening, snapshot, policy, d)
    &&& plan.human.unissued_remainder.micro() == channel_cap(opening, policy.human_floor_ppm, d) % (
    snapshot.eligible_count as nat)
    &&& plan.human.vesting_ms == policy.human_vesting_ms
    &&& plan.service_cap.micro() == channel_cap(opening, policy.service_ceiling_ppm, d)
    &&& plan.treasury_cap.micro() == channel_cap(opening, policy.treasury_ceiling_ppm, d)
    &&& plan.total_cap.micro() == channel_cap(opening, policy.total_ceiling_ppm, d)
    &&& service == Ok::<nat, EconomyError>(plan.service_issued.micro() as nat)
    &&& treasury == Ok::<nat, EconomyError>(plan.treasury_issued.micro() as nat)
    &&& plan.total_issued.micro() == plan.human.issued.micro() + plan.service_issued.micro()
        + plan.treasury_issued.micro()
    &&& grant_views(plan.optional_grants@) == grants_for(service_allocs, Channel::Service, 0)
        + grants_for(treasury_allocs, Channel::TreasuryContribution, policy.treasury_vesting_ms)
}

fn push_grants(
    out: &mut Vec<VestingGrant>,
    allocs: &Vec<Allocation>,
    channel: Channel,
    vesting_ms: u64,
)
    ensures
        grant_views(final(out)@) == grant_views(old(out)@) + grants_for(allocs@, channel, vesting_ms),
{
    let ghost start = old(out)@;
    let mut i: usize = 0;
    while i < allocs.len()
        invariant
            i <= allocs@.len(),
            grant_views(out@) == grant_views(start) + grants_for(allocs@.subrange(0, i as int), channel, vesting_ms),
        decreases allocs@.len() - i,
    {
        let a = &allocs[i];
        let ghost prev = out@;
        out.push(
            VestingGrant {
                beneficiary: a.beneficiary.clone(),
                channel,
                amount: a.amount,
                vesting_ms,
            },
        );
        i = i + 1;
        proof {
            let lhs = grant_views(out@);
            let rhs = grant_views(start) + grants_for(allocs@.subrange(0, i as int), channel, vesting_ms);
            assert(out@.len() == prev.len() + 1);
            assert(grant_views(prev).len() == prev.len());
            assert(grant_views(prev) == grant_views(start) + grants_for(
                allocs@.subrange(0, (i - 1) as int),
                channel,
                vesting_ms,
            ));
            assert(grants_for(allocs@.subrange(0, (i - 1) as int), channel, vesting_ms).len() == i - 1);
            assert(grants_for(allocs@.subrange(0, i as int), channel, vesting_ms).len() == i);
            assert(lhs.len() == rhs.len());
            assert forall|t: int| 0 <= t < lhs.len() implies lhs[t] == rhs[t] by {
                if t < lhs.len() - 1 {
                    assert(lhs[t] == grant_views(prev)[t]);
                    assert(grants_for(allocs@.subrange(0, i as int), channel, vesting_ms).subrange(0, (i - 1) as int)
                        =~~= grants_for(allocs@.subrange(0, (i - 1) as int), channel, vesting_ms));
                } else {
                    assert(out@[t].beneficiary == a.beneficiary);
                }
            }
            assert(lhs =~~= rhs);
        }
    }
    assert(allocs@.subrange(0, allocs@.len() as int) =~= allocs@);
}

/// Plan one epoch with an aggregate Human Share over a committed snapshot
/// plus the optional service and treasury allocations.
pub fn plan_scalable_epoch(request: &ScalableEpochRequest, policy: &IssuancePolicy) -> (r: Result<
    ScalableEpochPlan,
    EconomyError,
>)
    ensures
        ({
            match scalable_epoch_error(*request, *policy) {
                Some(e) => r == Err::<ScalableEpochPlan, EconomyError>(e),
                None => r matches Ok(plan) && is_scalable_plan_for(plan, *request, *policy),
            }
        }),
{
    match policy.validate() {
        Ok(()) => {},
        Err(e) => {
            return Err(e);
        },
    }
    let human = match plan_human_share(
        request.epoch,
        request.duration_ms,
        request.opening_circulating,
        request.human_snapshot,
        policy,
    ) {
        Ok(h) => h,
        Err(e) => {
            return Err(e);
        },
    };
    let service_cap = match prorated(
        request.opening_circulating,
        policy.service_ceiling_ppm,
        request.duration_ms,
    ) {
        Ok(c) => c,
        Err(e) => {
            return Err(e);
        },
    };
    let treasury_cap = match prorated(
        request.opening_circulating,
        policy.treasury_ceiling_ppm,
        request.duration_ms,
    ) {
        Ok(c) => c,
        Err(e) => {
            return Err(e);
        },
    };
    let total_cap = match prorated(
        request.opening_circulating,
        policy.total_ceiling_ppm,
        request.duration_ms,
    ) {
        Ok(c) => c,
        Err(e) => {
            return Err(e);
        },
    };
    let service_issued = match validate_allocations(request.service.as_slice(), service_cap) {
        Ok(a) => a,
        Err(e) => {
            return Err(e);
        },
    };
    let treasury_issued = match validate_allocations(request.treasury.as_slice(), treasury_cap) {
        Ok(a) => a,
        Err(e) => {
            return Err(e);
        },
    };
    let partial = match human.issued.checked_add(service_issued) {
        Ok(a) => a,
        Err(e) => {
            return Err(e);
        },
    };
    let total_issued = match partial.checked_add(treasury_issued) {
        Ok(a) => a,
        Err(e) => {
            return Err(e);
        },
    };
    if total_issued.as_micro() > total_cap.as_micro() {
        return Err(EconomyError::TotalExceeded);
    }
    let mut optional_grants: Vec<VestingGrant> = Vec::new();
    push_grants(&mut optional_grants, &request.service, Channel::Service, 0);
    push_grants(
        &mut optional_grants,
        &request.treasury,
        Channel::TreasuryContribution,
        policy.treasury_vesting_ms,
    );
    proof {
        assert(grant_views(Seq::<VestingGrant>::empty()) =~~= Seq::<GrantView>::empty());
    }
    Ok(
        ScalableEpochPlan {
            epoch: request.epoch,
            duration_ms: request.duration_ms,
            opening_circulating: request.opening_circulating,
            human,
            service_cap,
            treasury_cap,
            total_cap,
            service_issued,
            treasury_issued,
            total_issued,
            optional_grants,
        },
    )
}

/// The names held by a list of strings.
pub open spec fn names(v: Seq<String>) -> Seq<Seq<char>> {
    v.map_values(|s: String| s@)
}

/// Each name sorts strictly before the next.
pub open spec fn strictly_sorted(s: Seq<Seq<char>>) -> bool {
    forall|i: int, j: int| 0 <= i < j < s.len() ==> str_lt(#[trigger] s[i], #[trigger] s[j])
}

/// Both lists hold the same names.
pub open spec fn same_members(a: Seq<Seq<char>>, b: Seq<Seq<char>>) -> bool {
    &&& forall|i: int| 0 <= i < a.len() ==> b.contains(#[trigger] a[i])
    &&& forall|j: int| 0 <= j < b.len() ==> a.contains(#[trigger] b[j])
}

/// Some name is empty or appears twice.
pub open spec fn has_repeat_or_empty(s: Seq<Seq<char>>) -> bool {
    ||| exists|i: int| 0 <= i < s.len() && (#[trigger] s[i]).len() == 0
    ||| exists|i: int, j: int| 0 <= i < j < s.len() && #[trigger] s[i] == #[trigger] s[j]
}

/// `sorted` lists the names of `input` once each, in the order Rust sorts
/// strings.
pub open spec fn is_canonical_order(sorted: Seq<Seq<char>>, input: Seq<Seq<char>>) -> bool {
    &&& sorted.len() == input.len()
    &&& strictly_sorted(sorted)
    &&& same_members(sorted, input)
}

proof fn lemma_str_trans(a: Seq<char>, b: Seq<char>, c: Seq<char>)
    requires
        str_lt(a, b),
        str_lt(b, c),
    ensures
        str_lt(a, c),
{
    lemma_lex_trans(vstd::utf8::encode_utf8(a), vstd::utf8::encode_utf8(b), vstd::utf8::encode_utf8(c));
}

proof fn lemma_str_ne(a: Seq<char>, b: Seq<char>)
    requires
        str_lt(a, b),
    ensures
        a != b,
{
    lemma_lex_irrefl(vstd::utf8::encode_utf8(a));
}

/// The eligible humans in canonical (sorted) order, refusing an empty set,
/// an empty name, or a name given twice.
pub(crate) fn canonical_humans(humans: &[String]) -> (r: Result<Vec<String>, EconomyError>)
    ensures
        humans@.len() == 0 ==> r == Err::<Vec<String>, EconomyError>(EconomyError::EmptyEligibleSet),
        humans@.len() > 0 && has_repeat_or_empty(names(humans@)) ==> r == Err::<
            Vec<String>,
            EconomyError,
        >(EconomyError::DuplicateBeneficiary),
        humans@.len() > 0 && !has_repeat_or_empty(names(humans@)) ==> (r matches Ok(v)
            && is_canonical_order(names(v@), names(humans@))),
{
    if humans.len() == 0 {
        return Err(EconomyError::EmptyEligibleSet);
    }
    let mut sorted: Vec<String> = Vec::new();
    let mut i: usize = 0;
    while i < humans.len()
        invariant
            i <= humans@.len(),
            sorted@.len() == i,
            strictly_sorted(names(sorted@)),
            forall|a: int| 0 <= a < i ==> names(sorted@).contains(#[trigger] names(humans@)[a]),
            forall|b: int| 0 <= b < sorted@.len() ==> names(humans@).subrange(0, i as int).contains(
                #[trigger] names(sorted@)[b],
            ),
            !has_repeat_or_empty(names(humans@).subrange(0, i as int)),
        decreases humans@.len() - i,
    {
        let h = &humans[i];
        let ghost hs = names(humans@);
        let ghost ss = names(sorted@);
        if h.as_str().is_empty() {
            proof {
                assert(hs[i as int].len() == 0);
            }
            return Err(EconomyError::DuplicateBeneficiary);
        }
        let mut k: usize = 0;
        let mut equal = false;
        while k < sorted.len()
            invariant_except_break
                !equal,
            invariant
                k <= sorted@.len(),
                ss == names(sorted@),
                h@ == hs[i as int],
                forall|j: int| 0 <= j < k ==> str_lt(#[trigger] ss[j], h@),
            ensures
                k <= sorted@.len(),
                forall|j: int| 0 <= j < k ==> str_lt(#[trigger] ss[j], h@),
                equal ==> k < sorted@.len() && ss[k as int] == h@,
                !equal && k < sorted@.len() ==> str_lt(h@, ss[k as int]),
            decreases sorted@.len() - k,
        {
            let c = compare_strings(&sorted[k], h);
            if c == Cmp::Less {
                k = k + 1;
            } else {
                if c == Cmp::Equal {
                    equal = true;
                }
                break;
            }
        }
        if equal {
            proof {
                let w = choose|a: int| 0 <= a < i && hs.subrange(0, i as int)[a] == ss[k as int];
                assert(hs[w] == hs[i as int]);
                assert(has_repeat_or_empty(hs));
            }
            return Err(EconomyError::DuplicateBeneficiary);
        }
        proof {
            assert forall|j: int| 0 <= j < ss.len() implies ss[j] != h@ by {
                if j < k {
                    lemma_str_ne(ss[j], h@);
                } else {
                    if j > k {
                        lemma_str_trans(h@, ss[k as int], ss[j]);
                    }
                    lemma_str_ne(h@, ss[j]);
                }
            }
            assert forall|j: int| k < j < ss.len() implies str_lt(h@, #[trigger] ss[j]) by {
                lemma_str_trans(h@, ss[k as int], ss[j]);
            }
        }
        let ghost old_sorted = sorted@;
        sorted.insert(k, h.clone());
        proof {
            let ns = names(sorted@);
            assert(ns =~= ss.insert(k as int, h@));
            assert forall|x: int, y: int| 0 <= x < y < ns.len() implies str_lt(#[trigger] ns[x], #[trigger] ns[y]) by {
                if x < k && y < k {
                } else if x < k && y == k {
                } else if x < k && y > k {
                    assert(ns[y] == ss[y - 1]);
                } else if x == k {
                    assert(ns[y] == ss[y - 1]);
                } else {
                    assert(ns[x] == ss[x - 1]);
                    assert(ns[y] == ss[y - 1]);
                }
            }
            let hs2 = hs.subrange(0, i + 1);
            assert forall|a: int| 0 <= a < i + 1 implies ns.contains(#[trigger] hs[a]) by {
                if a < i {
                    let b = choose|b: int| 0 <= b < ss.len() && ss[b] == hs[a];
                    if b < k {
                        assert(ns[b] == hs[a]);
                    } else {
                        assert(ns[b + 1] == hs[a]);
                    }
                } else {
                    assert(ns[k as int] == hs[a]);
                }
            }
            assert forall|b: int| 0 <= b < ns.len() implies hs2.contains(#[trigger] ns[b]) by {
                if b == k {
                    assert(hs2[i as int] == ns[b]);
                } else {
                    let ob = if b < k {
                        b
                    } else {
                        b - 1
                    };
                    assert(ns[b] == ss[ob]);
                    let w = choose|a: int| 0 <= a < i && hs.subrange(0, i as int)[a] == ss[ob];
                    assert(hs2[w] == ns[b]);
                }
            }
            let prev = hs.subrange(0, i as int);
            assert forall|x: int| 0 <= x < hs2.len() implies (#[trigger] hs2[x]).len() != 0 by {
                if x < i {
                    assert(hs2[x] == prev[x]);
                }
            }
            assert forall|x: int, y: int| 0 <= x < y < hs2.len() implies #[trigger] hs2[x] != #[trigger] hs2[y] by {
                if y < i {
                    assert(hs2[x] == prev[x]);
                    assert(hs2[y] == prev[y]);
                } else {
                    assert(ss.contains(hs[x]));
                }
            }
            assert(!has_repeat_or_empty(hs2));
        }
        i = i + 1;
    }
    proof {
        assert(names(humans@).subrange(0, humans@.len() as int) =~= names(humans@));
    }
    Ok(sorted)
}

#[derive(Debug, Clone, PartialEq, Eq)]
pub struct EpochRequest {
    pub epoch: u64,
    pub duration_ms: u64,
    pub opening_circulating: Amount,
    pub eligible_humans: Vec<String>,
    pub service: Vec<Allocation>,
    pub treasury: Vec<Allocation>,
}

#[derive(Debug, Clone, PartialEq, Eq)]
pub struct EpochPlan {
    pub epoch: u64,
    pub duration_ms: u64,
    pub opening_circulating: Amount,
    pub human_cap: Amount,
    pub service_cap: Amount,
    pub treasury_cap: Amount,
    pub total_cap: Amount,
    pub human_issued: Amount,
    pub service_issued: Amount,
    pub treasury_issued: Amount,
    pub total_issued: Amount,
    pub grants: Vec<VestingGrant>,
}

/// The first check that planning an epoch with listed humans fails, if any.
pub open spec fn epoch_error(request: EpochRequest, policy: IssuancePolicy) -> Option<EconomyError> {
    let opening = request.opening_circulating;
    let d = request.duration_ms;
    let humans = names(request.eligible_humans@);
    let o = opening.micro() as nat;
    if !policy.valid() {
        Some(EconomyError::InvalidPolicy)
    } else if d == 0 || d > YEAR_MS {
        Some(EconomyError::InvalidDuration)
    } else if humans.len() == 0 {
        Some(EconomyError::EmptyEligibleSet)
    } else if has_repeat_or_empty(humans) {
        Some(EconomyError::DuplicateBeneficiary)
    } else if prorate_overflows(o, policy.human_floor_ppm as nat, d as nat) || prorate_overflows(
        o,
        policy.service_ceiling_ppm as nat,
        d as nat,
    ) || prorate_overflows(o, policy.treasury_ceiling_ppm as nat, d as nat) || prorate_overflows(
        o,
        policy.total_ceiling_ppm as nat,
        d as nat,
    ) {
        Some(EconomyError::Overflow)
    } else {
        match allocation_total(request.service@, channel_cap(opening, policy.service_ceiling_ppm, d)) {
            Err(e) => Some(e),
            Ok(service) => match allocation_total(
                request.treasury@,
                channel_cap(opening, policy.treasury_ceiling_ppm, d),
            ) {
                Err(e) => Some(e),
                Ok(treasury) => {
                    let cap = channel_cap(opening, policy.human_floor_ppm, d);
                    let human = (cap / humans.len()) * humans.len();
                    let total = human + service + treasury;
                    if total > u128::MAX {
                        Some(EconomyError::Overflow)
                    } else if total > channel_cap(opening, policy.total_ceiling_ppm, d) {
                        Some(EconomyError::TotalExceeded)
                    } else {
                        None
                    }
                },
            },
        }
    }
}

/// What a successful epoch plan holds, given its request and policy.
pub open spec fn is_epoch_plan_for(plan: EpochPlan, request: EpochRequest, policy: IssuancePolicy) -> bool {
    let opening = request.opening_circulating;
    let d = request.duration_ms;
    let n = request.eligible_humans@.len();
    let cap = channel_cap(opening, policy.human_floor_ppm, d);
    let views = grant_views(plan.grants@);
    &&& plan.epoch == request.epoch
    &&& plan.duration_ms == d
    &&& plan.opening_circulating == opening
    &&& plan.human_cap.micro() == cap
    &&& plan.service_cap.micro() == channel_cap(opening, policy.service_ceiling_ppm, d)
    &&& plan.treasury_cap.micro() == channel_cap(opening, policy.treasury_ceiling_ppm, d)
    &&& plan.total_cap.micro() == channel_cap(opening, policy.total_ceiling_ppm, d)
    &&& plan.human_issued.micro() == (cap / n) * n
    &&& allocation_total(request.service@, plan.service_cap.micro() as nat) == Ok::<nat, EconomyError>(
        plan.service_issued.micro() as nat,
    )
    &&& allocation_total(request.treasury@, plan.treasury_cap.micro() as nat) == Ok::<
        nat,
        EconomyError,
    >(plan.treasury_issued.micro() as nat)
    &&& plan.total_issued.micro() == plan.human_issued.micro() + plan.service_issued.micro()
        + plan.treasury_issued.micro()
    &&& views.len() >= n
    &&& is_canonical_order(
        views.subrange(0, n as int).map_values(|g: GrantView| g.beneficiary),
        names(request.eligible_humans@),
    )
    &&& forall|t: int|
        0 <= t < n ==> (#[trigger] views[t]).channel == Channel::HumanShare && views[t].amount
            == cap / n && views[t].vesting_ms == policy.human_vesting_ms
    &&& views.subrange(n as int, views.len() as int) == grants_for(
        request.service@,
        Channel::Service,
        0,
    ) + grants_for(request.treasury@, Channel::TreasuryContribution, policy.treasury_vesting_ms)
}

/// Plan one epoch that lists every eligible human: the equal Human Share
/// to each, in canonical order, then the service and treasury grants.
pub fn plan_epoch(request: &EpochRequest, policy: &IssuancePolicy) -> (r: Result<EpochPlan, EconomyError>)
    ensures
        ({
            match epoch_error(*request, *policy) {
                Some(e) => r == Err::<EpochPlan, EconomyError>(e),
                None => r matches Ok(plan) && is_epoch_plan_for(plan, *request, *policy),
            }
        }),
{
    match policy.validate() {
        Ok(()) => {},
        Err(e) => {
            return Err(e);
        },
    }
    if request.duration_ms == 0 || request.duration_ms > YEAR_MS {
        return Err(EconomyError::InvalidDuration);
    }
    let humans = match canonical_humans(request.eligible_humans.as_slice()) {
        Ok(h) => h,
        Err(e) => {
            return Err(e);
        },
    };
    let opening = request.opening_circulating;
    let d = request.duration_ms;
    let human_cap = match prorated(opening, policy.human_floor_ppm, d) {
        Ok(c) => c,
        Err(e) => {
            return Err(e);
        },
    };
    let service_cap = match prorated(opening, policy.service_ceiling_ppm, d) {
        Ok(c) => c,
        Err(e) => {
            return Err(e);
        },
    };
    let treasury_cap = match prorated(opening, policy.treasury_ceiling_ppm, d) {
        Ok(c) => c,
        Err(e) => {
            return Err(e);
        },
    };
    let total_cap = match prorated(opening, policy.total_ceiling_ppm, d) {
        Ok(c) => c,
        Err(e) => {
            return Err(e);
        },
    };
    let n = humans.len() as u128;
    let equal = human_cap.as_micro() / n;
    proof {
        vstd::arithmetic::div_mod::lemma_fundamental_div_mod(human_cap.micro() as int, n as int);
        vstd::arithmetic::div_mod::lemma_mod_bound(human_cap.micro() as int, n as int);
        assert(equal * n == n * equal) by (nonlinear_arith);
    }
    let human_issued_micro = match equal.checked_mul(n) {
        Some(v) => v,
        None => {
            return Err(EconomyError::Overflow);
        },
    };
    let equal_human = Amount::from_micro(equal);
    let human_issued = Amount::from_micro(human_issued_micro);
    let service_issued = match validate_allocations(request.service.as_slice(), service_cap) {
        Ok(a) => a,
        Err(e) => {
            return Err(e);
        },
    };
    let treasury_issued = match validate_allocations(request.treasury.as_slice(), treasury_cap) {
        Ok(a) => a,
        Err(e) => {
            return Err(e);
        },
    };
    let partial = match human_issued.checked_add(service_issued) {
        Ok(a) => a,
        Err(e) => {
            return Err(e);
        },
    };
    let total_issued = match partial.checked_add(treasury_issued) {
        Ok(a) => a,
        Err(e) => {
            return Err(e);
        },
    };
    if total_issued.as_micro() > total_cap.as_micro() {
        return Err(EconomyError::TotalExceeded);
    }
    let mut grants: Vec<VestingGrant> = Vec::new();
    let mut i: usize = 0;
    while i < humans.len()
        invariant
            i <= humans@.len(),
            equal_human.micro() == equal,
            grants@.len() == i,
            forall|t: int|
                0 <= t < i ==> (#[trigger] grants@[t])@ == (GrantView {
                    beneficiary: humans@[t]@,
                    channel: Channel::HumanShare,
                    amount: equal,
                    vesting_ms: policy.human_vesting_ms,
                }),
        decreases humans@.len() - i,
    {
        grants.push(
            VestingGrant {
                beneficiary: humans[i].clone(),
                channel: Channel::HumanShare,
                amount: equal_human,
                vesting_ms: policy.human_vesting_ms,
            },
        );
        i = i + 1;
    }
    let ghost human_part = grants@;
    push_grants(&mut grants, &request.service, Channel::Service, 0);
    push_grants(
        &mut grants,
        &request.treasury,
        Channel::TreasuryContribution,
        policy.treasury_vesting_ms,
    );
    let plan = EpochPlan {
        epoch: request.epoch,
        duration_ms: d,
        opening_circulating: opening,
        human_cap,
        service_cap,
        treasury_cap,
        total_cap,
        human_issued,
        service_issued,
        treasury_issued,
        total_issued,
        grants,
    };
    proof {
        let views = grant_views(plan.grants@);
        let hn = humans@.len();
        assert(views.len() >= hn);
        assert(grant_views(human_part).len() == hn);
        assert forall|t: int| 0 <= t < hn implies views[t] == grant_views(human_part)[t] by {
            assert(views.subrange(0, hn as int) =~~= grant_views(human_part));
            assert(views.subrange(0, hn as int)[t] == views[t]);
        }
        assert(views.subrange(0, hn as int).map_values(|g: GrantView| g.beneficiary) =~~= names(
            humans@,
        ));
        assert(views.subrange(hn as int, views.len() as int) =~~= grants_for(
            request.service@,
            Channel::Service,
            0,
        ) + grants_for(request.treasury@, Channel::TreasuryContribution, policy.treasury_vesting_ms));
    }
    Ok(plan)
}

} // verus!
