//! Deterministic target schedule: short settlement rounds, with Human Share
//! issuance proposed only at every `rounds_per_issuance`-th finalized round.
use crate::economy_error::EconomyError;
use crate::issuance::YEAR_MS;
use vstd::prelude::*;

verus! {

#[derive(Debug, Clone, Copy, PartialEq, Eq)]
pub struct SettlementCadence {
    target_round_ms: u64,
    rounds_per_issuance: u64,
}

#[derive(Debug, Clone, Copy, PartialEq, Eq)]
pub struct SettlementTarget {
    pub round: u64,
    /// Target elapsed time since the host's monotonic scheduling origin.
    pub elapsed_ms: u64,
    /// Zero-based issuance epoch proposed at this finalized-round boundary.
    pub issuance_epoch: Option<u64>,
}

impl SettlementCadence {
    pub closed spec fn round_ms(self) -> nat {
        self.target_round_ms as nat
    }

    pub closed spec fn rounds(self) -> nat {
        self.rounds_per_issuance as nat
    }

    /// Both parameters are positive and one issuance period fits in a year.
    pub open spec fn wf(self) -> bool {
        &&& self.round_ms() > 0
        &&& self.rounds() > 0
        &&& self.round_ms() * self.rounds() <= YEAR_MS
    }

    pub fn new(target_round_ms: u64, rounds_per_issuance: u64) -> (r: Result<
        SettlementCadence,
        EconomyError,
    >)
        ensures
            target_round_ms * rounds_per_issuance > u64::MAX ==> r == Err::<
                SettlementCadence,
                EconomyError,
            >(EconomyError::Overflow),
            target_round_ms * rounds_per_issuance <= u64::MAX && (target_round_ms == 0
                || rounds_per_issuance == 0 || target_round_ms * rounds_per_issuance > YEAR_MS)
                ==> r == Err::<SettlementCadence, EconomyError>(EconomyError::InvalidDuration),
            target_round_ms > 0 && rounds_per_issuance > 0 && target_round_ms * rounds_per_issuance
                <= YEAR_MS ==> r is Ok,
            r matches Ok(c) ==> c.wf() && c.round_ms() == target_round_ms && c.rounds()
                == rounds_per_issuance,
    {
        let duration = match target_round_ms.checked_mul(rounds_per_issuance) {
            Some(d) => d,
            None => {
                return Err(EconomyError::Overflow);
            },
        };
        if target_round_ms == 0 || rounds_per_issuance == 0 || duration > YEAR_MS {
            return Err(EconomyError::InvalidDuration);
        }
        Ok(SettlementCadence { target_round_ms, rounds_per_issuance })
    }

    pub fn target_round_ms(self) -> (ms: u64)
        ensures
            ms == self.round_ms(),
    {
        self.target_round_ms
    }

    pub fn issuance_duration_ms(self) -> (ms: u64)
        requires
            self.wf(),
        ensures
            ms == self.round_ms() * self.rounds(),
    {
        self.target_round_ms * self.rounds_per_issuance
    }

    /// The one next target after `finalized_round`; never a catch-up loop.
    pub fn next_after(self, finalized_round: u64) -> (r: Result<SettlementTarget, EconomyError>)
        requires
            self.wf(),
        ensures
            finalized_round + 1 > u64::MAX || (finalized_round + 1) * self.round_ms() > u64::MAX
                <==> r == Err::<SettlementTarget, EconomyError>(EconomyError::Overflow),
            r is Ok || r == Err::<SettlementTarget, EconomyError>(EconomyError::Overflow),
            r matches Ok(t) ==> {
                &&& t.round == finalized_round + 1
                &&& t.elapsed_ms == t.round * self.round_ms()
                &&& t.issuance_epoch == if (t.round as nat) % self.rounds() == 0 {
                    Some(((t.round as nat) / self.rounds() - 1) as u64)
                } else {
                    None
                }
            },
    {
        let round = match finalized_round.checked_add(1) {
            Some(r) => r,
            None => {
                return Err(EconomyError::Overflow);
            },
        };
        let elapsed_ms = match round.checked_mul(self.target_round_ms) {
            Some(e) => e,
            None => {
                return Err(EconomyError::Overflow);
            },
        };
        let issuance_epoch = if round % self.rounds_per_issuance == 0 {
            proof {
                vstd::arithmetic::div_mod::lemma_fundamental_div_mod(
                    round as int,
                    self.rounds_per_issuance as int,
                );
                if round / self.rounds_per_issuance == 0 {
                    assert(round == self.rounds_per_issuance * 0 + 0);
                }
            }
            Some(round / self.rounds_per_issuance - 1)
        } else {
            None
        };
        Ok(SettlementTarget { round, elapsed_ms, issuance_epoch })
    }
}

} // verus!
