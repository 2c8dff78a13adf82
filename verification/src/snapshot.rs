//! Validated export and import of the monetary ledger state.
use crate::amount::Amount;
use crate::economy_error::EconomyError;
use crate::ledger::{
    copy_position, lemma_micro_sum_mono, lemma_vested_within_issued, micro_sum, position_amounts,
    subject_ok, vested_sum, MonetaryLedger, VestingPosition, VestingSubject,
};
use crate::issuance::root_is_blank;
use vstd::prelude::*;

verus! {

/// Hard cap on vesting positions carried by one state snapshot.
pub const MAX_VESTING_POSITIONS: usize = 65_536;

/// Maximum UTF-8 bytes in a beneficiary name restored from a snapshot.
pub const MAX_SNAPSHOT_BENEFICIARY_BYTES: usize = 4_096;

/// A complete, non-secret representation of the ledger state.
#[derive(Debug, Clone, PartialEq, Eq)]
pub struct MonetaryLedgerSnapshot {
    pub genesis_circulating: Amount,
    pub total_issued: Amount,
    pub policy_time_ms: u128,
    pub last_epoch: Option<u64>,
    pub positions: Vec<VestingPosition>,
}

/// A position that a ledger at policy time `time` could hold: it started
/// no later than now, and its subject is a committed snapshot or a
/// nonempty, bounded name.
pub open spec fn position_ok(p: VestingPosition, time: u128) -> bool {
    &&& p.starts_at_policy_ms <= time
    &&& match p.subject {
        VestingSubject::HumanSnapshot(s) => !root_is_blank(s.root) && s.eligible_count != 0,
        VestingSubject::Beneficiary(b) => b@.len() != 0 && vstd::utf8::encode_utf8(b@).len()
            <= MAX_SNAPSHOT_BENEFICIARY_BYTES,
    }
}

/// Every beneficiary name among the positions fits the snapshot bound.
pub open spec fn names_fit(ps: Seq<VestingPosition>) -> bool {
    forall|i: int|
        0 <= i < ps.len() ==> match (#[trigger] ps[i]).subject {
            VestingSubject::Beneficiary(b) => vstd::utf8::encode_utf8(b@).len()
                <= MAX_SNAPSHOT_BENEFICIARY_BYTES,
            VestingSubject::HumanSnapshot(_) => true,
        }
}

/// Checking the first `n` positions in order: their summed amounts, or the
/// first refusal.
pub open spec fn position_scan(positions: Seq<VestingPosition>, time: u128, n: nat) -> Result<nat, EconomyError>
    decreases n,
{
    if n == 0 {
        Ok(0)
    } else {
        match position_scan(positions, time, (n - 1) as nat) {
            Err(e) => Err(e),
            Ok(sum) => if !position_ok(positions[n - 1], time) {
                Err(EconomyError::InvalidSnapshot)
            } else if sum + positions[n - 1].amount.micro() > u128::MAX {
                Err(EconomyError::Overflow)
            } else {
                Ok((sum + positions[n - 1].amount.micro()) as nat)
            },
        }
    }
}

/// Some position was issued in a later epoch than `last`.
pub open spec fn epoch_after(positions: Seq<VestingPosition>, last: u64) -> bool {
    exists|i: int| 0 <= i < positions.len() && (#[trigger] positions[i]).epoch > last
}

/// Why a snapshot is refused, if it is.
pub open spec fn import_error(s: MonetaryLedgerSnapshot) -> Option<EconomyError> {
    let ps = s.positions@;
    if ps.len() > MAX_VESTING_POSITIONS {
        Some(EconomyError::InvalidSnapshot)
    } else if s.last_epoch is None && (s.total_issued.micro() != 0 || s.policy_time_ms != 0
        || ps.len() != 0) {
        Some(EconomyError::InvalidSnapshot)
    } else {
        match position_scan(ps, s.policy_time_ms, ps.len()) {
            Err(e) => Some(e),
            Ok(sum) => if sum != s.total_issued.micro() {
                Some(EconomyError::InvalidSnapshot)
            } else if s.last_epoch matches Some(last) && epoch_after(ps, last) {
                Some(EconomyError::InvalidSnapshot)
            } else {
                let circulating = s.genesis_circulating.micro() + vested_sum(
                    ps,
                    s.policy_time_ms,
                    ps.len(),
                );
                let total = s.genesis_circulating.micro() + s.total_issued.micro();
                if total > u128::MAX || circulating > u128::MAX {
                    Some(EconomyError::Overflow)
                } else if circulating > total {
                    Some(EconomyError::Underflow)
                } else {
                    None
                }
            },
        }
    }
}

fn validate_position(position: &VestingPosition, policy_time_ms: u128) -> (r: Result<(), EconomyError>)
    ensures
        r is Ok <==> position_ok(*position, policy_time_ms),
        r matches Err(e) ==> e == EconomyError::InvalidSnapshot,
{
    if position.starts_at_policy_ms > policy_time_ms {
        return Err(EconomyError::InvalidSnapshot);
    }
    match &position.subject {
        VestingSubject::HumanSnapshot(snapshot) => {
            if crate::issuance::is_blank_root(&snapshot.root) || snapshot.eligible_count == 0 {
                return Err(EconomyError::InvalidSnapshot);
            }
        },
        VestingSubject::Beneficiary(beneficiary) => {
            let bytes = beneficiary.as_str().as_bytes();
            if beneficiary.as_str().is_empty() || bytes.len() > MAX_SNAPSHOT_BENEFICIARY_BYTES {
                return Err(EconomyError::InvalidSnapshot);
            }
        },
    }
    Ok(())
}

proof fn lemma_scan_err_persists(ps: Seq<VestingPosition>, t: u128, n: nat, m: nat)
    requires
        n <= m,
        position_scan(ps, t, n) is Err,
    ensures
        position_scan(ps, t, m) == position_scan(ps, t, n),
    decreases m - n,
{
    if m > n {
        lemma_scan_err_persists(ps, t, n, (m - 1) as nat);
    }
}

proof fn lemma_scan_sums(ps: Seq<VestingPosition>, t: u128, n: nat)
    requires
        n <= ps.len(),
    ensures
        position_scan(ps, t, n) matches Ok(sum) ==> sum == micro_sum(position_amounts(ps), n)
            && forall|i: int| 0 <= i < n ==> position_ok(#[trigger] ps[i], t),
        (forall|i: int| 0 <= i < n ==> position_ok(#[trigger] ps[i], t)) && micro_sum(
            position_amounts(ps),
            n,
        ) <= u128::MAX ==> position_scan(ps, t, n) == Ok::<nat, EconomyError>(
            micro_sum(position_amounts(ps), n),
        ),
    decreases n,
{
    if n > 0 {
        lemma_scan_sums(ps, t, (n - 1) as nat);
        lemma_micro_sum_mono(position_amounts(ps), (n - 1) as nat, n);
        assert(position_amounts(ps)[n - 1] == ps[n - 1].amount.micro());
    }
}

impl MonetaryLedger {
    /// Export the exact deterministic monetary state.
    pub fn export_snapshot(&self) -> (s: MonetaryLedgerSnapshot)
        ensures
            s.genesis_circulating == self.genesis(),
            s.total_issued == self.issued(),
            s.policy_time_ms == self.policy_time(),
            s.last_epoch == self.last(),
            s.positions@ == self.position_seq(),
    {
        let source = self.positions();
        let mut positions: Vec<VestingPosition> = Vec::new();
        let mut i: usize = 0;
        while i < source.len()
            invariant
                i <= source@.len(),
                positions@ == source@.subrange(0, i as int),
            decreases source@.len() - i,
        {
            positions.push(copy_position(&source[i]));
            i = i + 1;
            assert(positions@ =~= source@.subrange(0, i as int));
        }
        assert(positions@ =~= source@);
        MonetaryLedgerSnapshot {
            genesis_circulating: self.genesis_amount(),
            total_issued: self.total_issued(),
            policy_time_ms: self.policy_time_ms(),
            last_epoch: self.last_epoch(),
            positions,
        }
    }

    /// Reconstruct monetary state after validating every snapshot invariant.
    pub fn import_snapshot(snapshot: MonetaryLedgerSnapshot) -> (r: Result<MonetaryLedger, EconomyError>)
        ensures
            ({
                match import_error(snapshot) {
                    Some(e) => r == Err::<MonetaryLedger, EconomyError>(e),
                    None => r matches Ok(l) && l.genesis() == snapshot.genesis_circulating
                        && l.issued() == snapshot.total_issued && l.policy_time()
                        == snapshot.policy_time_ms && l.last() == snapshot.last_epoch
                        && l.position_seq() == snapshot.positions@,
                }
            }),
            r matches Ok(l) ==> l.well_formed(),
    {
        let ghost ps = snapshot.positions@;
        if snapshot.positions.len() > MAX_VESTING_POSITIONS {
            return Err(EconomyError::InvalidSnapshot);
        }
        if snapshot.last_epoch.is_none() && (snapshot.total_issued.as_micro() != 0
            || snapshot.policy_time_ms != 0 || snapshot.positions.len() != 0) {
            return Err(EconomyError::InvalidSnapshot);
        }
        let mut issued = Amount::from_micro(0);
        let mut greatest: Option<u64> = None;
        let mut i: usize = 0;
        while i < snapshot.positions.len()
            invariant
                ps == snapshot.positions@,
                i <= ps.len(),
                ps.len() <= MAX_VESTING_POSITIONS,
                !(snapshot.last_epoch is None && (snapshot.total_issued.micro() != 0
                    || snapshot.policy_time_ms != 0 || ps.len() != 0)),
                position_scan(ps, snapshot.policy_time_ms, i as nat) == Ok::<nat, EconomyError>(
                    issued.micro() as nat,
                ),
                greatest is None <==> i == 0,
                greatest matches Some(g) ==> (forall|j: int| 0 <= j < i ==> (#[trigger] ps[j]).epoch
                    <= g) && (exists|j: int| 0 <= j < i && (#[trigger] ps[j]).epoch == g),
            decreases ps.len() - i,
        {
            let position = &snapshot.positions[i];
            match validate_position(position, snapshot.policy_time_ms) {
                Ok(()) => {},
                Err(e) => {
                    proof {
                        lemma_scan_err_persists(ps, snapshot.policy_time_ms, (i + 1) as nat, ps.len());
                    }
                    return Err(e);
                },
            }
            issued = match issued.checked_add(position.amount) {
                Ok(a) => a,
                Err(e) => {
                    proof {
                        lemma_scan_err_persists(ps, snapshot.policy_time_ms, (i + 1) as nat, ps.len());
                    }
                    return Err(e);
                },
            };
            let ghost prev = greatest;
            greatest = match greatest {
                None => Some(position.epoch),
                Some(g) => if position.epoch > g {
                    Some(position.epoch)
                } else {
                    Some(g)
                },
            };
            proof {
                let g2 = greatest->Some_0;
                if prev is Some {
                    let w = choose|j: int| 0 <= j < i && (#[trigger] ps[j]).epoch == prev->Some_0;
                    if position.epoch > prev->Some_0 {
                        assert(ps[i as int].epoch == g2);
                    } else {
                        assert(ps[w].epoch == g2);
                    }
                } else {
                    assert(ps[i as int].epoch == g2);
                }
            }
            i = i + 1;
        }
        if issued.as_micro() != snapshot.total_issued.as_micro() {
            return Err(EconomyError::InvalidSnapshot);
        }
        match (greatest, snapshot.last_epoch) {
            (Some(g), Some(last)) => {
                if g > last {
                    return Err(EconomyError::InvalidSnapshot);
                }
            },
            _ => {},
        }
        proof {
            match snapshot.last_epoch {
                Some(last) => {
                    if greatest is None {
                        assert(ps.len() == 0);
                    }
                    assert(!epoch_after(ps, last));
                },
                None => {},
            }
        }
        proof {
            lemma_scan_sums(ps, snapshot.policy_time_ms, ps.len());
        }
        let ledger = MonetaryLedger::from_parts(
            snapshot.genesis_circulating,
            snapshot.total_issued,
            snapshot.policy_time_ms,
            snapshot.last_epoch,
            snapshot.positions,
        );
        match ledger.total_supply() {
            Ok(_) => {},
            Err(e) => {
                return Err(e);
            },
        }
        match ledger.circulating_supply() {
            Ok(_) => {},
            Err(e) => {
                return Err(e);
            },
        }
        match ledger.locked_supply() {
            Ok(_) => {},
            Err(e) => {
                return Err(e);
            },
        }
        Ok(ledger)
    }
}

/// Law: the exported state of a fresh ledger — any genesis supply, nothing
/// issued, no epoch, no position — always passes import, so exporting and
/// importing it gives back the same ledger.
pub proof fn lemma_genesis_snapshot_imports(snapshot: MonetaryLedgerSnapshot)
    requires
        snapshot.total_issued.micro() == 0,
        snapshot.policy_time_ms == 0,
        snapshot.last_epoch is None,
        snapshot.positions@.len() == 0,
    ensures
        import_error(snapshot) is None,
{
    let ps = snapshot.positions@;
    assert(position_scan(ps, 0, 0) == Ok::<nat, EconomyError>(0));
    assert(vested_sum(ps, 0, 0) == 0);
}

/// Law: a well-formed ledger (one reached by `new` and accepted epochs)
/// whose state fits the snapshot format (at most `MAX_VESTING_POSITIONS`
/// positions, every beneficiary name at most
/// `MAX_SNAPSHOT_BENEFICIARY_BYTES` of UTF-8) and whose total supply is
/// representable exports a snapshot that import accepts, so importing the
/// export gives back the same ledger.
pub proof fn lemma_exported_snapshot_imports(l: MonetaryLedger, snapshot: MonetaryLedgerSnapshot)
    requires
        l.well_formed(),
        snapshot.genesis_circulating == l.genesis(),
        snapshot.total_issued == l.issued(),
        snapshot.policy_time_ms == l.policy_time(),
        snapshot.last_epoch == l.last(),
        snapshot.positions@ == l.position_seq(),
        l.position_seq().len() <= MAX_VESTING_POSITIONS,
        names_fit(l.position_seq()),
        l.genesis().micro() + l.issued().micro() <= u128::MAX,
    ensures
        import_error(snapshot) is None,
{
    let ps = snapshot.positions@;
    let t = snapshot.policy_time_ms;
    assert forall|i: int| 0 <= i < ps.len() implies position_ok(#[trigger] ps[i], t) by {
        assert(subject_ok(ps[i].subject));
    }
    lemma_scan_sums(ps, t, ps.len());
    lemma_vested_within_issued(ps, t, ps.len());
    if let Some(last) = snapshot.last_epoch {
        if epoch_after(ps, last) {
            let i = choose|i: int| 0 <= i < ps.len() && (#[trigger] ps[i]).epoch > last;
            assert(ps[i].epoch <= last);
        }
    }
}

} // verus!
