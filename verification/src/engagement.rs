//! The escrowed engagement: a generic unit of work, the states it moves
//! through, and how its local state combines with canonical settlement.
//!
//! No transition executes a payment or contacts anyone: these are pure
//! state moves. A signed promise is never final ownership; the engagement
//! only tracks how much of its escrowed amount has been released.
use vstd::prelude::*;

verus! {

/// Which side of an engagement raised a dispute.
#[derive(Debug, Clone, Copy, PartialEq, Eq, Structural)]
pub enum Party {
    Payer,
    Performer,
}

/// Deliberately generic: every edge service that needs escrowed work uses
/// this same state shape. Identities are DID strings.
#[derive(Debug, Clone, PartialEq, Eq)]
pub enum EngagementState {
    Offered,
    Accepted { by: String, at_ms: u64 },
    /// Partial performance, partial release.
    Milestone { index: u16, released_micromini: u64 },
    Completed { at_ms: u64 },
    Disputed { raised_by: Party, arbiters: Vec<String> },
    /// The default good outcome when a provider disappears.
    TimedOut { refunded_to: String },
}

impl EngagementState {
    /// Once terminal, the engagement never transitions again.
    pub open spec fn terminal(&self) -> bool {
        self is Completed || self is TimedOut
    }

    /// A live, already-accepted state.
    pub open spec fn live(&self) -> bool {
        self is Accepted || self is Milestone
    }

    /// `true` once the engagement can never transition again.
    pub fn is_terminal(&self) -> (t: bool)
        ensures
            t == self.terminal(),
    {
        match self {
            EngagementState::Completed { .. } | EngagementState::TimedOut { .. } => true,
            _ => false,
        }
    }
}

/// The escrowed payment claim, as far as the engagement reads it: its
/// amount. The signed claim itself is checked by settlement.
#[derive(Debug, Clone, Copy, PartialEq, Eq, Structural)]
pub struct EscrowClaim {
    pub amount_micro: u64,
}

/// One escrowed engagement.
#[derive(Debug, Clone, PartialEq, Eq)]
pub struct Engagement {
    /// Content id of the engagement's terms document.
    pub terms: String,
    pub payer: String,
    pub performer: String,
    pub escrow_claim: EscrowClaim,
    /// If the state is not terminal by this device-clock time, `timeout`
    /// refunds the unreleased balance to the payer.
    pub deadline_ms: u64,
    /// Running total released across every milestone so far.
    pub released_micromini: u64,
    pub state: EngagementState,
}

#[derive(Debug, Clone, PartialEq, Eq, Structural)]
pub enum EngagementError {
    /// The transition is not defined from the current state.
    InvalidTransition,
    /// A milestone would release more than the escrowed amount.
    MilestoneExceedsEscrow,
}

impl EngagementError {
    /// The error as it is displayed.
    pub fn message(&self) -> (m: &'static str)
        ensures
            m@ == match *self {
                EngagementError::InvalidTransition => "invalid engagement state transition"@,
                EngagementError::MilestoneExceedsEscrow => "milestone release would exceed the escrowed amount"@,
            },
    {
        match self {
            EngagementError::InvalidTransition => "invalid engagement state transition",
            EngagementError::MilestoneExceedsEscrow => "milestone release would exceed the escrowed amount",
        }
    }
}

impl Engagement {
    /// Nothing released beyond the escrowed amount.
    pub open spec fn within_escrow(&self) -> bool {
        self.released_micromini <= self.escrow_claim.amount_micro
    }

    /// The same engagement, apart from its state and released total.
    pub open spec fn same_terms(&self, other: Engagement) -> bool {
        &&& self.terms == other.terms
        &&& self.payer == other.payer
        &&& self.performer == other.performer
        &&& self.escrow_claim == other.escrow_claim
        &&& self.deadline_ms == other.deadline_ms
    }

    /// Offer a new engagement, with nothing released yet.
    pub fn offer(
        terms: String,
        payer: String,
        performer: String,
        escrow_claim: EscrowClaim,
        deadline_ms: u64,
    ) -> (e: Engagement)
        ensures
            e.terms == terms,
            e.payer == payer,
            e.performer == performer,
            e.escrow_claim == escrow_claim,
            e.deadline_ms == deadline_ms,
            e.released_micromini == 0,
            e.state == EngagementState::Offered,
            e.within_escrow(),
    {
        Engagement {
            terms,
            payer,
            performer,
            escrow_claim,
            deadline_ms,
            released_micromini: 0,
            state: EngagementState::Offered,
        }
    }

    /// How much of the escrowed claim has not yet been released.
    pub fn remaining_micromini(&self) -> (r: u64)
        ensures
            r == if self.released_micromini <= self.escrow_claim.amount_micro {
                self.escrow_claim.amount_micro - self.released_micromini
            } else {
                0
            },
    {
        self.escrow_claim.amount_micro.saturating_sub(self.released_micromini)
    }
}

/// Move an offered engagement to accepted; any other state is refused.
pub fn accept(e: Engagement, by: String, now_ms: u64) -> (r: Result<Engagement, EngagementError>)
    ensures
        e.state is Offered ==> (r matches Ok(n) && n.same_terms(e) && n.released_micromini
            == e.released_micromini && n.state == (EngagementState::Accepted { by, at_ms: now_ms })),
        !(e.state is Offered) ==> r == Err::<Engagement, EngagementError>(
            EngagementError::InvalidTransition,
        ),
{
    let mut e = e;
    match e.state {
        EngagementState::Offered => {
            e.state = EngagementState::Accepted { by, at_ms: now_ms };
            Ok(e)
        },
        _ => Err(EngagementError::InvalidTransition),
    }
}

/// Release part of the escrowed amount, from a live state. A release that
/// would push the running total past the escrowed amount is refused.
pub fn release_milestone(e: Engagement, index: u16, released_micromini: u64) -> (r: Result<
    Engagement,
    EngagementError,
>)
    ensures
        !e.state.live() ==> r == Err::<Engagement, EngagementError>(
            EngagementError::InvalidTransition,
        ),
        e.state.live() && e.released_micromini + released_micromini
            > e.escrow_claim.amount_micro ==> r == Err::<Engagement, EngagementError>(
            EngagementError::MilestoneExceedsEscrow,
        ),
        e.state.live() && e.released_micromini + released_micromini
            <= e.escrow_claim.amount_micro ==> (r matches Ok(n) && n.same_terms(e)
            && n.released_micromini == e.released_micromini + released_micromini && n.state == (
        EngagementState::Milestone { index, released_micromini })),
        r matches Ok(n) ==> n.within_escrow(),
{
    let mut e = e;
    match e.state {
        EngagementState::Accepted { .. } | EngagementState::Milestone { .. } => {
            let new_total = match e.released_micromini.checked_add(released_micromini) {
                Some(t) => t,
                None => {
                    return Err(EngagementError::MilestoneExceedsEscrow);
                },
            };
            if new_total > e.escrow_claim.amount_micro {
                return Err(EngagementError::MilestoneExceedsEscrow);
            }
            e.released_micromini = new_total;
            e.state = EngagementState::Milestone { index, released_micromini };
            Ok(e)
        },
        _ => Err(EngagementError::InvalidTransition),
    }
}

/// Mark the engagement fully performed, from a live state.
pub fn complete(e: Engagement, now_ms: u64) -> (r: Result<Engagement, EngagementError>)
    ensures
        e.state.live() ==> (r matches Ok(n) && n.same_terms(e) && n.released_micromini
            == e.released_micromini && n.state == (EngagementState::Completed { at_ms: now_ms })),
        !e.state.live() ==> r == Err::<Engagement, EngagementError>(
            EngagementError::InvalidTransition,
        ),
{
    let mut e = e;
    match e.state {
        EngagementState::Accepted { .. } | EngagementState::Milestone { .. } => {
            e.state = EngagementState::Completed { at_ms: now_ms };
            Ok(e)
        },
        _ => Err(EngagementError::InvalidTransition),
    }
}

/// Raise a dispute, from a live state: an offered engagement has nothing
/// to dispute and a terminal one is already settled.
pub fn dispute(e: Engagement, raised_by: Party, arbiters: Vec<String>) -> (r: Result<
    Engagement,
    EngagementError,
>)
    ensures
        e.state.live() ==> (r matches Ok(n) && n.same_terms(e) && n.released_micromini
            == e.released_micromini && n.state == (EngagementState::Disputed {
            raised_by,
            arbiters,
        })),
        !e.state.live() ==> r == Err::<Engagement, EngagementError>(
            EngagementError::InvalidTransition,
        ),
{
    let mut e = e;
    match e.state {
        EngagementState::Accepted { .. } | EngagementState::Milestone { .. } => {
            e.state = EngagementState::Disputed { raised_by, arbiters };
            Ok(e)
        },
        _ => Err(EngagementError::InvalidTransition),
    }
}

/// The timeout edge every non-terminal state has back to the payer: past
/// the deadline a non-terminal engagement is timed out with a refund to the
/// payer; otherwise nothing changes.
pub fn timeout(e: Engagement, now_ms: u64) -> (n: Engagement)
    ensures
        n.same_terms(e),
        n.released_micromini == e.released_micromini,
        e.state.terminal() || now_ms < e.deadline_ms ==> n.state == e.state,
        !e.state.terminal() && now_ms >= e.deadline_ms ==> n.state == (EngagementState::TimedOut {
            refunded_to: e.payer,
        }),
{
    let mut e = e;
    if e.state.is_terminal() || now_ms < e.deadline_ms {
        return e;
    }
    let payer = e.payer.clone();
    e.state = EngagementState::TimedOut { refunded_to: payer };
    e
}

/// How canonical settlement resolved an engagement's escrow claim.
#[derive(Debug, Clone, Copy, PartialEq, Eq, Structural)]
pub enum SettlementState {
    SignedLocal,
    AcceptedLocal,
    PendingCanonical,
    Finalized,
    RejectedConflict,
    Expired,
}

/// Whether an engagement's escrow claim has reached canonical resolution,
/// combined with the engagement's local state.
#[derive(Debug, Clone, Copy, PartialEq, Eq, Structural)]
pub enum CanonicalCompletionStatus {
    /// The canonical ledger has not resolved the escrow claim yet.
    Pending,
    /// The claim finalized and the local state is completed.
    CanonicallyCompleted,
    /// The claim finalized but the local state never reached completion.
    FinalizedWithoutLocalCompletion,
    /// The ledger resolved the claim's slot with a different claim.
    RejectedConflict,
    /// The claim's validity window passed before canonical inclusion.
    Expired,
}

impl CanonicalCompletionStatus {
    /// Is the engagement provably, canonically done? Only for
    /// `CanonicallyCompleted`.
    pub fn is_canonically_complete(self) -> (b: bool)
        ensures
            b == (self == CanonicalCompletionStatus::CanonicallyCompleted),
    {
        match self {
            CanonicalCompletionStatus::CanonicallyCompleted => true,
            _ => false,
        }
    }
}

/// Combine the canonical settlement of the escrow claim with the
/// engagement's local state. Read-only.
pub fn canonical_completion_status(engagement: &Engagement, settlement: SettlementState) -> (s:
    CanonicalCompletionStatus)
    ensures
        s == match settlement {
            SettlementState::Finalized => if engagement.state is Completed {
                CanonicalCompletionStatus::CanonicallyCompleted
            } else {
                CanonicalCompletionStatus::FinalizedWithoutLocalCompletion
            },
            SettlementState::RejectedConflict => CanonicalCompletionStatus::RejectedConflict,
            SettlementState::Expired => CanonicalCompletionStatus::Expired,
            _ => CanonicalCompletionStatus::Pending,
        },
{
    match settlement {
        SettlementState::Finalized => match engagement.state {
            EngagementState::Completed { .. } => CanonicalCompletionStatus::CanonicallyCompleted,
            _ => CanonicalCompletionStatus::FinalizedWithoutLocalCompletion,
        },
        SettlementState::RejectedConflict => CanonicalCompletionStatus::RejectedConflict,
        SettlementState::Expired => CanonicalCompletionStatus::Expired,
        SettlementState::SignedLocal
        | SettlementState::AcceptedLocal
        | SettlementState::PendingCanonical => CanonicalCompletionStatus::Pending,
    }
}

} // verus!
