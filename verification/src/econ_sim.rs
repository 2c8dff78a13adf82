//! Deterministic, cohort-based stress simulation of the issuance policy.
//!
//! An engineering calibration harness, not an oracle of economic safety: a
//! simulated verified Sybil stands for a failure of personhood supplied as
//! an explicit assumption of the scenario.
use crate::amount::Amount;
use crate::issuance::{IssuancePolicy, MILLION};
use vstd::prelude::*;

verus! {

#[derive(Debug, Clone, Copy, PartialEq, Eq, PartialOrd, Ord)]
pub enum Actor {
    HonestUser,
    Whale,
    StorageFarmer,
    SybilCluster,
    DormantHuman,
    Contributor,
    RelayOperator,
    SearchIndexer,
    EarlyAdopter,
    LateAdopter,
}

#[derive(Debug, Clone, Copy, PartialEq, Eq)]
pub struct Scenario {
    pub years: u16,
    pub opening_supply: Amount,
    pub early_humans: u64,
    pub humans_joining_per_year: u64,
    pub dormant_ppm_per_year: u32,
    pub verified_sybil_identities: u64,
    pub whale_opening_ppm: u32,
    pub service_utilization_ppm: u32,
    pub treasury_utilization_ppm: u32,
}

#[derive(Debug, Clone, Copy, PartialEq, Eq)]
pub struct Snapshot {
    pub year: u16,
    pub total_supply: Amount,
    pub active_humans: u64,
    pub late_adopters: u64,
    pub dormant_humans: u64,
    pub sybil_share_ppm: u32,
    pub whale_share_ppm: u32,
    pub annual_inflation_ppm: u32,
    pub human_share_per_identity: Amount,
}

/// What a yearly snapshot reports, amounts in micro-MINI.
pub struct SnapshotView {
    pub year: u16,
    pub total_supply: u128,
    pub active_humans: u64,
    pub late_adopters: u64,
    pub dormant_humans: u64,
    pub sybil_share_ppm: u32,
    pub whale_share_ppm: u32,
    pub annual_inflation_ppm: u32,
    pub human_share_per_identity: u128,
}

impl View for Snapshot {
    type V = SnapshotView;

    open spec fn view(&self) -> SnapshotView {
        SnapshotView {
            year: self.year,
            total_supply: self.total_supply.micro(),
            active_humans: self.active_humans,
            late_adopters: self.late_adopters,
            dormant_humans: self.dormant_humans,
            sybil_share_ppm: self.sybil_share_ppm,
            whale_share_ppm: self.whale_share_ppm,
            annual_inflation_ppm: self.annual_inflation_ppm,
            human_share_per_identity: self.human_share_per_identity.micro(),
        }
    }
}

#[derive(Debug, Clone, PartialEq, Eq, Structural)]
pub enum SimulationError {
    InvalidScenario,
    Overflow,
}

/// What the simulation carries from one year to the next.
pub struct SimState {
    pub supply: u128,
    pub late: u64,
    pub dormant: u64,
    pub sybil_balance: u128,
    pub whale_balance: u128,
}

/// Human Share floor, service and treasury ceilings of the accepted
/// envelope, in parts per million.
pub open spec fn human_floor_ppm() -> u32 {
    20_000
}

pub open spec fn service_ceiling_ppm() -> u32 {
    7_500
}

pub open spec fn treasury_ceiling_ppm() -> u32 {
    2_500
}

/// A scenario that the simulation accepts.
pub open spec fn scenario_valid(s: Scenario) -> bool {
    &&& s.years != 0
    &&& s.opening_supply.micro() != 0
    &&& s.early_humans != 0
    &&& s.dormant_ppm_per_year <= MILLION
    &&& s.whale_opening_ppm <= MILLION
    &&& s.service_utilization_ppm <= MILLION
    &&& s.treasury_utilization_ppm <= MILLION
}

/// `value` scaled by `ppm` parts per million, rounded down, unless the
/// product overflows.
pub open spec fn mul_ppm_value(value: u128, ppm: u32) -> Option<u128> {
    if value * ppm > u128::MAX {
        None
    } else {
        Some(((value * ppm) / 1_000_000) as u128)
    }
}

/// `part` as parts per million of `whole`, the product saturating and the
/// result capped at one whole; zero for an empty whole.
pub open spec fn ratio_ppm_value(part: u128, whole: u128) -> u32 {
    if whole == 0 {
        0
    } else {
        let scaled: int = if part * 1_000_000 > u128::MAX {
            u128::MAX as int
        } else {
            part * 1_000_000
        };
        let q = scaled / (whole as int);
        if q > 1_000_000 {
            1_000_000
        } else {
            q as u32
        }
    }
}

/// The state before the first year, or the overflow that prevents it.
pub open spec fn initial_state(s: Scenario) -> Result<SimState, SimulationError> {
    match mul_ppm_value(s.opening_supply.micro(), s.whale_opening_ppm) {
        None => Err(SimulationError::Overflow),
        Some(whale) => Ok(
            SimState {
                supply: s.opening_supply.micro(),
                late: 0,
                dormant: 0,
                sybil_balance: 0,
                whale_balance: whale,
            },
        ),
    }
}

/// The issuance of one year after `st`: the Human Share split equally
/// between every active identity, services and treasury at their
/// utilization of the ceilings.
pub open spec fn year_step(s: Scenario, st: SimState, year: u16) -> Result<
    (SimState, SnapshotView),
    SimulationError,
> {
    let early = s.early_humans;
    let sybils = s.verified_sybil_identities;
    if st.late + s.humans_joining_per_year > u64::MAX {
        Err(SimulationError::Overflow)
    } else {
        let late = (st.late + s.humans_joining_per_year) as u64;
        match mul_ppm_value((early + late) as u128, s.dormant_ppm_per_year) {
            None => Err(SimulationError::Overflow),
            Some(newly_wide) => {
                let newly = newly_wide as u64;
                let everyone: int = if early + late > u64::MAX {
                    u64::MAX as int
                } else {
                    early + late
                };
                if st.dormant + newly > u64::MAX {
                    Err(SimulationError::Overflow)
                } else {
                    let dormant = (if st.dormant + newly < everyone {
                        st.dormant + newly
                    } else {
                        everyone
                    }) as u64;
                    if early + late > u64::MAX || early + late < dormant {
                        Err(SimulationError::Overflow)
                    } else if early + late - dormant + sybils > u64::MAX {
                        Err(SimulationError::Overflow)
                    } else {
                        let active = (early + late - dormant + sybils) as u64;
                        if active == 0 {
                            Err(SimulationError::InvalidScenario)
                        } else {
                            year_issuance(s, st, year, late, dormant, active)
                        }
                    }
                }
            },
        }
    }
}

/// The second half of a year: caps, issuance and balances, once the active
/// identities are counted.
pub open spec fn year_issuance(
    s: Scenario,
    st: SimState,
    year: u16,
    late: u64,
    dormant: u64,
    active: u64,
) -> Result<(SimState, SnapshotView), SimulationError> {
    let sybils = s.verified_sybil_identities;
    match (
        mul_ppm_value(st.supply, human_floor_ppm()),
        mul_ppm_value(st.supply, service_ceiling_ppm()),
        mul_ppm_value(st.supply, treasury_ceiling_ppm()),
    ) {
        (Some(human_cap), Some(service_cap), Some(treasury_cap)) => {
            let per_identity = (human_cap / (active as u128)) as u128;
            let human_issued = per_identity * active;
            let sybil_take = per_identity * sybils;
            match (
                mul_ppm_value(service_cap, s.service_utilization_ppm),
                mul_ppm_value(treasury_cap, s.treasury_utilization_ppm),
            ) {
                (Some(service_issued), Some(treasury_issued)) => {
                    let issued = human_issued + service_issued + treasury_issued;
                    if human_issued > u128::MAX || sybil_take > u128::MAX || st.sybil_balance
                        + sybil_take > u128::MAX || human_issued + service_issued > u128::MAX
                        || issued > u128::MAX || st.supply + issued > u128::MAX
                        || st.whale_balance + service_issued / 2 > u128::MAX {
                        Err(SimulationError::Overflow)
                    } else {
                        let supply = (st.supply + issued) as u128;
                        let sybil_balance = (st.sybil_balance + sybil_take) as u128;
                        let whale_balance = (st.whale_balance + service_issued / 2) as u128;
                        Ok(
                            (
                                SimState { supply, late, dormant, sybil_balance, whale_balance },
                                SnapshotView {
                                    year,
                                    total_supply: supply,
                                    active_humans: active,
                                    late_adopters: late,
                                    dormant_humans: dormant,
                                    sybil_share_ppm: ratio_ppm_value(sybil_balance, supply),
                                    whale_share_ppm: ratio_ppm_value(whale_balance, supply),
                                    annual_inflation_ppm: ratio_ppm_value(
                                        issued as u128,
                                        st.supply,
                                    ),
                                    human_share_per_identity: per_identity,
                                },
                            ),
                        )
                    }
                },
                _ => Err(SimulationError::Overflow),
            }
        },
        _ => Err(SimulationError::Overflow),
    }
}

/// The first `n` years of a scenario: the state after them and their
/// snapshots, or the first error.
pub open spec fn run_years(s: Scenario, n: nat) -> Result<(SimState, Seq<SnapshotView>), SimulationError>
    decreases n,
{
    if n == 0 {
        match initial_state(s) {
            Ok(st) => Ok((st, Seq::empty())),
            Err(e) => Err(e),
        }
    } else {
        match run_years(s, (n - 1) as nat) {
            Err(e) => Err(e),
            Ok((st, rows)) => match year_step(s, st, n as u16) {
                Err(e) => Err(e),
                Ok((next, row)) => Ok((next, rows.push(row))),
            },
        }
    }
}

/// What a whole run gives: the yearly snapshots, or why it stopped.
pub open spec fn simulation(s: Scenario) -> Result<Seq<SnapshotView>, SimulationError> {
    if !scenario_valid(s) {
        Err(SimulationError::InvalidScenario)
    } else {
        match run_years(s, s.years as nat) {
            Ok((_, rows)) => Ok(rows),
            Err(e) => Err(e),
        }
    }
}

fn validate(s: Scenario) -> (r: Result<(), SimulationError>)
    ensures
        r is Ok <==> scenario_valid(s),
        r matches Err(e) ==> e == SimulationError::InvalidScenario,
{
    if s.years == 0 || s.opening_supply.as_micro() == 0 || s.early_humans == 0
        || s.dormant_ppm_per_year > 1_000_000 || s.whale_opening_ppm > 1_000_000
        || s.service_utilization_ppm > 1_000_000 || s.treasury_utilization_ppm > 1_000_000 {
        return Err(SimulationError::InvalidScenario);
    }
    Ok(())
}

fn mul_ppm(value: u128, ppm: u32) -> (r: Result<u128, SimulationError>)
    ensures
        match mul_ppm_value(value, ppm) {
            Some(v) => r == Ok::<u128, SimulationError>(v),
            None => r == Err::<u128, SimulationError>(SimulationError::Overflow),
        },
{
    match value.checked_mul(ppm as u128) {
        Some(v) => Ok(v / MILLION),
        None => Err(SimulationError::Overflow),
    }
}

fn ratio_ppm(part: u128, whole: u128) -> (r: u32)
    ensures
        r == ratio_ppm_value(part, whole),
{
    if whole == 0 {
        return 0;
    }
    let scaled = match part.checked_mul(MILLION) {
        Some(v) => v,
        None => u128::MAX,
    };
    let q = scaled / whole;
    if q > MILLION {
        1_000_000
    } else {
        q as u32
    }
}

/// The year after `st`.
fn simulate_year(s: Scenario, policy: &IssuancePolicy, st: &SimState, year: u16) -> (r: Result<
    (SimState, Snapshot),
    SimulationError,
>)
    requires
        policy.human_floor_ppm == human_floor_ppm(),
        policy.service_ceiling_ppm == service_ceiling_ppm(),
        policy.treasury_ceiling_ppm == treasury_ceiling_ppm(),
    ensures
        match year_step(s, *st, year) {
            Ok((next, row)) => r matches Ok((n2, snap)) && n2 == next && snap@ == row,
            Err(e) => r == Err::<(SimState, Snapshot), SimulationError>(e),
        },
{
    let early = s.early_humans;
    let sybils = s.verified_sybil_identities;
    let late = match st.late.checked_add(s.humans_joining_per_year) {
        Some(v) => v,
        None => {
            return Err(SimulationError::Overflow);
        },
    };
    let newly_dormant = match mul_ppm(early as u128 + late as u128, s.dormant_ppm_per_year) {
        Ok(v) => v as u64,
        Err(e) => {
            return Err(e);
        },
    };
    let everyone = early.saturating_add(late);
    let dormant = match st.dormant.checked_add(newly_dormant) {
        Some(v) => if v < everyone {
            v
        } else {
            everyone
        },
        None => {
            return Err(SimulationError::Overflow);
        },
    };
    let active_real = match early.checked_add(late) {
        Some(v) => match v.checked_sub(dormant) {
            Some(w) => w,
            None => {
                return Err(SimulationError::Overflow);
            },
        },
        None => {
            return Err(SimulationError::Overflow);
        },
    };
    let active = match active_real.checked_add(sybils) {
        Some(v) => v,
        None => {
            return Err(SimulationError::Overflow);
        },
    };
    if active == 0 {
        return Err(SimulationError::InvalidScenario);
    }
    let human_cap = match mul_ppm(st.supply, policy.human_floor_ppm) {
        Ok(v) => v,
        Err(e) => {
            return Err(e);
        },
    };
    let per_identity = human_cap / active as u128;
    let human_issued = match per_identity.checked_mul(active as u128) {
        Some(v) => v,
        None => {
            return Err(SimulationError::Overflow);
        },
    };
    let sybil_take = match per_identity.checked_mul(sybils as u128) {
        Some(v) => v,
        None => {
            return Err(SimulationError::Overflow);
        },
    };
    let sybil_balance = match st.sybil_balance.checked_add(sybil_take) {
        Some(v) => v,
        None => {
            return Err(SimulationError::Overflow);
        },
    };
    let service_cap = match mul_ppm(st.supply, policy.service_ceiling_ppm) {
        Ok(v) => v,
        Err(e) => {
            return Err(e);
        },
    };
    let treasury_cap = match mul_ppm(st.supply, policy.treasury_ceiling_ppm) {
        Ok(v) => v,
        Err(e) => {
            return Err(e);
        },
    };
    let service_issued = match mul_ppm(service_cap, s.service_utilization_ppm) {
        Ok(v) => v,
        Err(e) => {
            return Err(e);
        },
    };
    let treasury_issued = match mul_ppm(treasury_cap, s.treasury_utilization_ppm) {
        Ok(v) => v,
        Err(e) => {
            return Err(e);
        },
    };
    let issued = match human_issued.checked_add(service_issued) {
        Some(v) => match v.checked_add(treasury_issued) {
            Some(w) => w,
            None => {
                return Err(SimulationError::Overflow);
            },
        },
        None => {
            return Err(SimulationError::Overflow);
        },
    };
    let opening = st.supply;
    let supply = match opening.checked_add(issued) {
        Some(v) => v,
        None => {
            return Err(SimulationError::Overflow);
        },
    };
    // Wealth cannot buy protocol voice: this balance tracks only economic
    // concentration, and no governance weight exists in the model.
    let whale_balance = match st.whale_balance.checked_add(service_issued / 2) {
        Some(v) => v,
        None => {
            return Err(SimulationError::Overflow);
        },
    };
    let snapshot = Snapshot {
        year,
        total_supply: Amount::from_micro(supply),
        active_humans: active,
        late_adopters: late,
        dormant_humans: dormant,
        sybil_share_ppm: ratio_ppm(sybil_balance, supply),
        whale_share_ppm: ratio_ppm(whale_balance, supply),
        annual_inflation_ppm: ratio_ppm(issued, opening),
        human_share_per_identity: Amount::from_micro(per_identity),
    };
    Ok((SimState { supply, late, dormant, sybil_balance, whale_balance }, snapshot))
}

/// Error results of a run stay errors for every later year.
proof fn lemma_run_error_persists(s: Scenario, n: nat, m: nat)
    requires
        n <= m,
        run_years(s, n) is Err,
    ensures
        run_years(s, m) == run_years(s, n),
    decreases m - n,
{
    if m > n {
        lemma_run_error_persists(s, n, (m - 1) as nat);
    }
}

/// Runs the scenario year by year and reports each year.
pub fn run(scenario: Scenario) -> (r: Result<Vec<Snapshot>, SimulationError>)
    ensures
        match simulation(scenario) {
            Ok(rows) => r matches Ok(v) && v@.len() == rows.len() && forall|i: int|
                0 <= i < rows.len() ==> (#[trigger] v@[i])@ == rows[i],
            Err(e) => r == Err::<Vec<Snapshot>, SimulationError>(e),
        },
{
    match validate(scenario) {
        Ok(()) => {},
        Err(e) => {
            return Err(e);
        },
    }
    let policy = IssuancePolicy::d0074();
    let supply = scenario.opening_supply.as_micro();
    let whale_balance = match mul_ppm(supply, scenario.whale_opening_ppm) {
        Ok(v) => v,
        Err(e) => {
            proof {
                lemma_run_error_persists(scenario, 0, scenario.years as nat);
            }
            return Err(e);
        },
    };
    let mut state = SimState { supply, late: 0, dormant: 0, sybil_balance: 0, whale_balance };
    let mut snapshots: Vec<Snapshot> = Vec::new();
    let mut done: u16 = 0;
    while done < scenario.years
        invariant
            done <= scenario.years,
            scenario_valid(scenario),
            policy.human_floor_ppm == human_floor_ppm(),
            policy.service_ceiling_ppm == service_ceiling_ppm(),
            policy.treasury_ceiling_ppm == treasury_ceiling_ppm(),
            run_years(scenario, done as nat) matches Ok((st, rows)) && st == state
                && snapshots@.len() == rows.len() && forall|i: int|
                0 <= i < rows.len() ==> (#[trigger] snapshots@[i])@ == rows[i],
        decreases scenario.years - done,
    {
        let year = done + 1;
        let (next, snapshot) = match simulate_year(scenario, &policy, &state, year) {
            Ok(v) => v,
            Err(e) => {
                proof {
                    lemma_run_error_persists(scenario, year as nat, scenario.years as nat);
                }
                return Err(e);
            },
        };
        state = next;
        snapshots.push(snapshot);
        done = year;
    }
    Ok(snapshots)
}

/// Scaling down by parts per million never exceeds the scaled product.
proof fn lemma_ppm_floor(value: u128, ppm: u32, out: u128)
    requires
        mul_ppm_value(value, ppm) == Some(out),
    ensures
        out * 1_000_000 <= value * ppm,
        ppm <= MILLION ==> out <= value,
{
    let p = value * ppm;
    assert((p / 1_000_000) * 1_000_000 <= p) by (nonlinear_arith)
        requires
            p >= 0,
    ;
    if ppm <= MILLION {
        assert(p <= value * 1_000_000) by (nonlinear_arith)
            requires
                p == value * ppm,
                ppm <= 1_000_000,
                value >= 0,
        ;
        assert(p / 1_000_000 <= value) by (nonlinear_arith)
            requires
                p <= value * 1_000_000,
                p >= 0,
        ;
    }
}

/// A year of a valid scenario issues at most the total ceiling of its
/// opening supply, and never shrinks the supply.
proof fn lemma_year_within_ceiling(s: Scenario, st: SimState, year: u16)
    requires
        scenario_valid(s),
        st.supply > 0,
        year_step(s, st, year) is Ok,
    ensures
        ({
            let (next, row) = year_step(s, st, year)->Ok_0;
            &&& row.annual_inflation_ppm <= 30_000
            &&& row.year == year
            &&& next.supply >= st.supply
        }),
{
    let early = s.early_humans;
    let late = (st.late + s.humans_joining_per_year) as u64;
    let newly = mul_ppm_value((early + late) as u128, s.dormant_ppm_per_year)->Some_0 as u64;
    let everyone: int = if early + late > u64::MAX {
        u64::MAX as int
    } else {
        early + late
    };
    let dormant = (if st.dormant + newly < everyone {
        st.dormant + newly
    } else {
        everyone
    }) as u64;
    let active = (early + late - dormant + s.verified_sybil_identities) as u64;
    assert(year_step(s, st, year) == year_issuance(s, st, year, late, dormant, active));
    let human_cap = mul_ppm_value(st.supply, human_floor_ppm())->Some_0;
    let service_cap = mul_ppm_value(st.supply, service_ceiling_ppm())->Some_0;
    let treasury_cap = mul_ppm_value(st.supply, treasury_ceiling_ppm())->Some_0;
    let service_issued = mul_ppm_value(service_cap, s.service_utilization_ppm)->Some_0;
    let treasury_issued = mul_ppm_value(treasury_cap, s.treasury_utilization_ppm)->Some_0;
    let per_identity = (human_cap / (active as u128)) as u128;
    let human_issued = per_identity * active;
    let issued = human_issued + service_issued + treasury_issued;
    let supply = st.supply as int;
    lemma_ppm_floor(st.supply, human_floor_ppm(), human_cap);
    lemma_ppm_floor(st.supply, service_ceiling_ppm(), service_cap);
    lemma_ppm_floor(st.supply, treasury_ceiling_ppm(), treasury_cap);
    lemma_ppm_floor(service_cap, s.service_utilization_ppm, service_issued);
    lemma_ppm_floor(treasury_cap, s.treasury_utilization_ppm, treasury_issued);
    assert(human_issued <= human_cap) by (nonlinear_arith)
        requires
            per_identity == human_cap / (active as u128),
            human_issued == per_identity * active,
            active > 0,
            human_cap >= 0,
    ;
    assert(issued * 1_000_000 <= supply * 30_000) by (nonlinear_arith)
        requires
            issued == human_issued + service_issued + treasury_issued,
            human_issued <= human_cap,
            service_issued <= service_cap,
            treasury_issued <= treasury_cap,
            human_cap * 1_000_000 <= supply * 20_000,
            service_cap * 1_000_000 <= supply * 7_500,
            treasury_cap * 1_000_000 <= supply * 2_500,
    ;
    let scaled: int = if issued * 1_000_000 > u128::MAX {
        u128::MAX as int
    } else {
        issued * 1_000_000
    };
    assert(scaled / supply <= 30_000) by (nonlinear_arith)
        requires
            0 <= scaled <= supply * 30_000,
            supply > 0,
    ;
}

/// The first `n` years of a valid scenario that ran: `n` snapshots, one
/// per year in order, none issuing more than the total ceiling.
proof fn lemma_run_years_within_ceiling(s: Scenario, n: nat)
    requires
        scenario_valid(s),
        n <= u16::MAX,
        run_years(s, n) is Ok,
    ensures
        ({
            let (st, rows) = run_years(s, n)->Ok_0;
            &&& st.supply > 0
            &&& rows.len() == n
            &&& forall|i: int|
                0 <= i < n ==> (#[trigger] rows[i]).annual_inflation_ppm <= 30_000 && rows[i].year
                    == i + 1
        }),
    decreases n,
{
    if n > 0 {
        lemma_run_years_within_ceiling(s, (n - 1) as nat);
        let (st, rows) = run_years(s, (n - 1) as nat)->Ok_0;
        lemma_year_within_ceiling(s, st, n as u16);
    }
}

/// Law: no simulated year issues more than the total ceiling of the accepted
/// envelope (30 000 parts per million of its opening supply), and a run
/// reports exactly one snapshot per year, in order.
pub proof fn lemma_simulation_within_ceiling(s: Scenario)
    requires
        simulation(s) is Ok,
    ensures
        simulation(s)->Ok_0.len() == s.years,
        forall|i: int|
            0 <= i < s.years ==> (#[trigger] simulation(s)->Ok_0[i]).annual_inflation_ppm
                <= 30_000 && simulation(s)->Ok_0[i].year == i + 1,
{
    lemma_run_years_within_ceiling(s, s.years as nat);
}

/// What a run carries into the year of row `i`: the total supply, late
/// adopters and dormant humans reported for the year before, or the
/// opening supply and nobody for the first year.
pub open spec fn carried_in(s: Scenario, rows: Seq<SnapshotView>, i: int) -> (u128, u64, u64) {
    if i == 0 {
        (s.opening_supply.micro(), 0, 0)
    } else {
        (rows[i - 1].total_supply, rows[i - 1].late_adopters, rows[i - 1].dormant_humans)
    }
}

/// `part` in parts per million of a positive `whole`: the scaled part
/// saturates at `u128::MAX`, and the ratio is rounded down and capped at
/// one whole.
pub open spec fn ppm_of(part: int, whole: int) -> int {
    let scaled: int = if part * 1_000_000 > u128::MAX {
        u128::MAX as int
    } else {
        part * 1_000_000
    };
    if scaled / whole > 1_000_000 {
        1_000_000
    } else {
        scaled / whole
    }
}

/// The service issuance of a year that opens with `supply`: the 0.75%
/// ceiling, rounded down, at the scenario's utilization, rounded down.
pub open spec fn service_of(s: Scenario, supply: int) -> int {
    (supply * 7_500 / 1_000_000) * s.service_utilization_ppm / 1_000_000
}

/// The treasury issuance of a year that opens with `supply`: the 0.25%
/// ceiling, rounded down, at the scenario's utilization, rounded down.
pub open spec fn treasury_of(s: Scenario, supply: int) -> int {
    (supply * 2_500 / 1_000_000) * s.treasury_utilization_ppm / 1_000_000
}

/// The verified sybils' balance after the first `n` rows: each year every
/// sybil identity receives that year's Human Share per identity.
pub open spec fn sybil_holding(s: Scenario, rows: Seq<SnapshotView>, n: nat) -> int
    decreases n,
{
    if n == 0 {
        0
    } else {
        sybil_holding(s, rows, (n - 1) as nat) + rows[n - 1].human_share_per_identity
            * s.verified_sybil_identities
    }
}

/// The whale's balance after the first `n` rows: its opening share of the
/// supply, rounded down, plus half of each year's service issuance.
pub open spec fn whale_holding(s: Scenario, rows: Seq<SnapshotView>, n: nat) -> int
    decreases n,
{
    if n == 0 {
        s.opening_supply.micro() * s.whale_opening_ppm / 1_000_000
    } else {
        whale_holding(s, rows, (n - 1) as nat) + service_of(
            s,
            carried_in(s, rows, n - 1).0 as int,
        ) / 2
    }
}

/// How row `i` of a run follows from the year before it: the year's
/// joiners are added to the late adopters; the year's newly dormant
/// humans (the dormancy rate, rounded down, of everyone who has joined)
/// are added to those already dormant, capped at everyone; the active
/// identities are everyone not dormant plus the verified sybils; the Human
/// Share per identity is the Human Share floor (2%) of the supply carried
/// in, rounded down, split equally over those active identities and
/// rounded down; the supply grows by exactly what the year issues (the
/// Human Share paid to every active identity, and the service and treasury
/// issuance); and the inflation, sybil share and whale share are that
/// growth, the sybils' and the whale's balances in parts per million.
pub open spec fn row_follows(s: Scenario, rows: Seq<SnapshotView>, i: int) -> bool {
    let (supply, late_before, dormant_before) = carried_in(s, rows, i);
    let r = rows[i];
    let everyone = s.early_humans + r.late_adopters;
    let newly = everyone * s.dormant_ppm_per_year / 1_000_000;
    &&& r.year == i + 1
    &&& r.late_adopters == late_before + s.humans_joining_per_year
    &&& r.dormant_humans == (if dormant_before + newly < everyone {
        dormant_before + newly
    } else {
        everyone
    })
    &&& r.dormant_humans >= dormant_before
    &&& r.dormant_humans <= everyone
    &&& r.active_humans == everyone - r.dormant_humans + s.verified_sybil_identities
    &&& r.active_humans > 0
    &&& r.human_share_per_identity == (supply * 20_000 / 1_000_000) / (r.active_humans as int)
    &&& r.total_supply == supply + r.human_share_per_identity * r.active_humans + service_of(
        s,
        supply as int,
    ) + treasury_of(s, supply as int)
    &&& r.total_supply >= supply
    &&& supply > 0
    &&& r.annual_inflation_ppm == ppm_of(r.total_supply - supply, supply as int)
    &&& r.sybil_share_ppm == ppm_of(sybil_holding(s, rows, (i + 1) as nat), r.total_supply as int)
    &&& r.whale_share_ppm == ppm_of(whale_holding(s, rows, (i + 1) as nat), r.total_supply as int)
}

/// The balances after the first `k` rows depend on those rows alone.
proof fn lemma_holdings_prefix(s: Scenario, a: Seq<SnapshotView>, b: Seq<SnapshotView>, k: nat)
    requires
        k <= a.len(),
        k <= b.len(),
        forall|j: int| 0 <= j < k ==> a[j] == b[j],
    ensures
        sybil_holding(s, a, k) == sybil_holding(s, b, k),
        whale_holding(s, a, k) == whale_holding(s, b, k),
    decreases k,
{
    if k > 0 {
        lemma_holdings_prefix(s, a, b, (k - 1) as nat);
        if k > 1 {
            assert(a[k - 2] == b[k - 2]);
        }
        assert(carried_in(s, a, k - 1) == carried_in(s, b, k - 1));
    }
}

/// The state after `n` years of a valid run matches its last row, and
/// every row follows from the one before it.
proof fn lemma_run_years_rows(s: Scenario, n: nat)
    requires
        scenario_valid(s),
        n <= u16::MAX,
        run_years(s, n) is Ok,
    ensures
        ({
            let (st, rows) = run_years(s, n)->Ok_0;
            &&& rows.len() == n
            &&& (st.supply, st.late, st.dormant) == carried_in(s, rows, n as int)
            &&& st.sybil_balance == sybil_holding(s, rows, n)
            &&& st.whale_balance == whale_holding(s, rows, n)
            &&& forall|i: int| 0 <= i < n ==> #[trigger] row_follows(s, rows, i)
        }),
    decreases n,
{
    if n == 0 {
        let w = mul_ppm_value(s.opening_supply.micro(), s.whale_opening_ppm)->Some_0;
        lemma_ppm_floor(s.opening_supply.micro(), s.whale_opening_ppm, w);
    } else {
        lemma_run_years_rows(s, (n - 1) as nat);
        let (st, rows) = run_years(s, (n - 1) as nat)->Ok_0;
        let (next, row) = year_step(s, st, n as u16)->Ok_0;
        let rows2 = rows.push(row);
        let early = s.early_humans;
        let late = (st.late + s.humans_joining_per_year) as u64;
        let newly_wide = mul_ppm_value((early + late) as u128, s.dormant_ppm_per_year)->Some_0;
        lemma_ppm_floor((early + late) as u128, s.dormant_ppm_per_year, newly_wide);
        let newly = newly_wide as u64;
        assert(newly == (early + late) * s.dormant_ppm_per_year / 1_000_000);
        let dormant = (if st.dormant + newly < early + late {
            st.dormant + newly
        } else {
            early + late
        }) as u64;
        let active = (early + late - dormant + s.verified_sybil_identities) as u64;
        assert(year_step(s, st, n as u16) == year_issuance(s, st, n as u16, late, dormant, active));
        assert(carried_in(s, rows2, (n - 1) as int) == carried_in(s, rows, (n - 1) as int));
        lemma_holdings_prefix(s, rows, rows2, (n - 1) as nat);
        let service_cap = mul_ppm_value(st.supply, service_ceiling_ppm())->Some_0;
        let service_issued = mul_ppm_value(service_cap, s.service_utilization_ppm)->Some_0;
        lemma_ppm_floor(st.supply, service_ceiling_ppm(), service_cap);
        lemma_ppm_floor(service_cap, s.service_utilization_ppm, service_issued);
        assert(service_issued == service_of(s, st.supply as int));
        assert(sybil_holding(s, rows2, n) == next.sybil_balance);
        assert(whale_holding(s, rows2, n) == next.whale_balance);
        assert forall|i: int| 0 <= i < n implies #[trigger] row_follows(s, rows2, i) by {
            if i < n - 1 {
                lemma_holdings_prefix(s, rows, rows2, (i + 1) as nat);
                assert(rows2[i] == rows[i]);
                assert(carried_in(s, rows2, i) == carried_in(s, rows, i));
                assert(row_follows(s, rows, i));
            } else {
                assert(rows2[i] == row);
                if n > 1 {
                    assert(row_follows(s, rows, n - 2));
                }
                assert(st.supply > 0);
                assert(row.total_supply - st.supply < u128::MAX);
                assert(row.annual_inflation_ppm == ppm_of(row.total_supply - st.supply, st.supply as int));
                assert(row.sybil_share_ppm == ppm_of(next.sybil_balance as int, row.total_supply as int));
                assert(row.whale_share_ppm == ppm_of(next.whale_balance as int, row.total_supply as int));
            }
        }
    }
}

/// Law: each year of a run follows from the year before it as
/// `row_follows` says. In particular dormancy accumulates: a human who
/// fell dormant stays dormant, so the dormant count never decreases from
/// one year to the next, and the Human Share is split over everyone not
/// dormant plus the verified sybils.
pub proof fn lemma_simulation_years_follow(s: Scenario)
    requires
        simulation(s) is Ok,
    ensures
        simulation(s)->Ok_0.len() == s.years,
        forall|i: int| 0 <= i < s.years ==> #[trigger] row_follows(s, simulation(s)->Ok_0, i),
        forall|i: int|
            1 <= i < s.years ==> (#[trigger] simulation(s)->Ok_0[i]).dormant_humans
                >= simulation(s)->Ok_0[i - 1].dormant_humans,
{
    lemma_run_years_rows(s, s.years as nat);
    let rows = simulation(s)->Ok_0;
    assert forall|i: int| 1 <= i < s.years implies (#[trigger] rows[i]).dormant_humans
        >= rows[i - 1].dormant_humans by {
        assert(row_follows(s, rows, i));
    }
}

} // verus!
