use mininet::engagement::{
    accept, canonical_completion_status, complete, dispute, release_milestone, timeout,
    CanonicalCompletionStatus, Engagement, EngagementError, EngagementState, EscrowClaim, Party,
    SettlementState,
};

fn sample_engagement(amount_micro: u64, deadline_ms: u64) -> Engagement {
    Engagement::offer(
        "terms-object".to_string(),
        "did:mini:payer".to_string(),
        "did:mini:performer".to_string(),
        EscrowClaim { amount_micro },
        deadline_ms,
    )
}

fn someone() -> String {
    "did:mini:someone".to_string()
}

#[test]
fn accept_moves_offered_to_accepted() {
    let e = sample_engagement(1_000, 10_000);
    let by = someone();
    let e = accept(e, by.clone(), 500).unwrap();
    assert_eq!(e.state, EngagementState::Accepted { by, at_ms: 500 });
}

#[test]
fn accepting_an_already_accepted_engagement_is_rejected() {
    let e = sample_engagement(1_000, 10_000);
    let by = someone();
    let e = accept(e, by.clone(), 500).unwrap();
    assert_eq!(accept(e, by, 600), Err(EngagementError::InvalidTransition));
}

#[test]
fn release_milestone_updates_running_total_and_state() {
    let e = sample_engagement(1_000, 10_000);
    let e = accept(e, someone(), 500).unwrap();
    let e = release_milestone(e, 0, 400).unwrap();
    assert_eq!(e.released_micromini, 400);
    assert_eq!(e.remaining_micromini(), 600);
    assert_eq!(e.state, EngagementState::Milestone { index: 0, released_micromini: 400 });
    let e = release_milestone(e, 1, 600).unwrap();
    assert_eq!(e.released_micromini, 1_000);
    assert_eq!(e.remaining_micromini(), 0);
}

#[test]
fn release_milestone_rejects_exceeding_the_escrow() {
    let e = sample_engagement(1_000, 10_000);
    let e = accept(e, someone(), 500).unwrap();
    let e = release_milestone(e, 0, 900).unwrap();
    assert_eq!(release_milestone(e, 1, 200), Err(EngagementError::MilestoneExceedsEscrow));
}

#[test]
fn release_milestone_from_offered_is_rejected() {
    let e = sample_engagement(1_000, 10_000);
    assert_eq!(release_milestone(e, 0, 1), Err(EngagementError::InvalidTransition));
}

#[test]
fn complete_is_valid_from_accepted_and_milestone_only() {
    let e = sample_engagement(1_000, 10_000);
    assert_eq!(complete(e.clone(), 100), Err(EngagementError::InvalidTransition));
    let e = accept(e, someone(), 500).unwrap();
    let e = complete(e, 700).unwrap();
    assert_eq!(e.state, EngagementState::Completed { at_ms: 700 });
}

#[test]
fn completing_a_completed_engagement_is_rejected() {
    let e = sample_engagement(1_000, 10_000);
    let e = accept(e, someone(), 500).unwrap();
    let e = complete(e, 700).unwrap();
    assert_eq!(complete(e, 800), Err(EngagementError::InvalidTransition));
}

#[test]
fn dispute_is_valid_from_accepted_and_milestone_only() {
    let e = sample_engagement(1_000, 10_000);
    let arbiters = vec!["did:mini:arbiter".to_string()];
    assert_eq!(dispute(e.clone(), Party::Payer, arbiters.clone()), Err(EngagementError::InvalidTransition));
    let e = accept(e, someone(), 500).unwrap();
    let e = dispute(e, Party::Performer, arbiters.clone()).unwrap();
    assert_eq!(e.state, EngagementState::Disputed { raised_by: Party::Performer, arbiters });
}

#[test]
fn timeout_refunds_the_payer_from_any_non_terminal_state_past_the_deadline() {
    let e = sample_engagement(1_000, 1_000);
    let payer = e.payer.clone();
    let e = timeout(e, 2_000);
    assert_eq!(e.state, EngagementState::TimedOut { refunded_to: payer });
}

#[test]
fn timeout_is_a_noop_before_the_deadline() {
    let e = sample_engagement(1_000, 1_000);
    let e = timeout(e, 500);
    assert_eq!(e.state, EngagementState::Offered);
}

#[test]
fn timeout_never_overwrites_a_completed_engagement() {
    let e = sample_engagement(1_000, 1_000);
    let e = accept(e, someone(), 100).unwrap();
    let e = complete(e, 200).unwrap();
    let e = timeout(e, 5_000);
    assert_eq!(e.state, EngagementState::Completed { at_ms: 200 });
}

#[test]
fn timeout_from_accepted_or_milestone_still_refunds_the_payer() {
    let e = sample_engagement(1_000, 1_000);
    let payer = e.payer.clone();
    let e = accept(e, someone(), 100).unwrap();
    let e = release_milestone(e, 0, 200).unwrap();
    let e = timeout(e, 2_000);
    assert_eq!(e.state, EngagementState::TimedOut { refunded_to: payer });
    assert!(e.state.is_terminal());
}

#[test]
fn finalized_claim_with_local_completion_is_canonically_completed() {
    let e = sample_engagement(1_000, 10_000);
    let e = accept(e, someone(), 100).unwrap();
    let e = complete(e, 200).unwrap();
    let status = canonical_completion_status(&e, SettlementState::Finalized);
    assert_eq!(status, CanonicalCompletionStatus::CanonicallyCompleted);
    assert!(status.is_canonically_complete());
}

#[test]
fn finalized_claim_without_local_completion_is_flagged_not_silently_completed() {
    let e = sample_engagement(1_000, 10_000);
    let e = accept(e, someone(), 100).unwrap();
    let status = canonical_completion_status(&e, SettlementState::Finalized);
    assert_eq!(status, CanonicalCompletionStatus::FinalizedWithoutLocalCompletion);
    assert!(!status.is_canonically_complete());
}

#[test]
fn nothing_finalized_yet_is_pending() {
    let e = sample_engagement(1_000, 10_000);
    for s in [SettlementState::SignedLocal, SettlementState::AcceptedLocal, SettlementState::PendingCanonical] {
        assert_eq!(canonical_completion_status(&e, s), CanonicalCompletionStatus::Pending);
    }
}

#[test]
fn a_conflicting_finalized_claim_is_rejected_regardless_of_local_completion() {
    let e = sample_engagement(1_000, 10_000);
    let e = accept(e, someone(), 100).unwrap();
    let e = complete(e, 200).unwrap();
    assert_eq!(
        canonical_completion_status(&e, SettlementState::RejectedConflict),
        CanonicalCompletionStatus::RejectedConflict
    );
}

#[test]
fn an_unresolved_claim_past_its_validity_window_is_expired() {
    let e = sample_engagement(1_000, 10_000);
    assert_eq!(canonical_completion_status(&e, SettlementState::Expired), CanonicalCompletionStatus::Expired);
}
