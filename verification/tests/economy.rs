use mininet::amount::Amount;
use mininet::cadence::{SettlementCadence, SettlementTarget};
use mininet::economy_error::EconomyError;
use mininet::genesis::{build_genesis, GenesisPolicy};
use mininet::issuance::{
    plan_epoch, plan_human_share, plan_scalable_epoch, Allocation, Channel, EpochRequest,
    HumanSharePlan, HumanSnapshot, IssuancePolicy, ScalableEpochPlan, ScalableEpochRequest,
    VestingGrant, YEAR_MS,
};
use mininet::ledger::{MonetaryLedger, VestingPosition, VestingSubject};
use mininet::scalable_epoch_wire::MAX_SCALABLE_EPOCH_GRANTS;
use mininet::snapshot::MonetaryLedgerSnapshot;

fn amount(value: u128) -> Amount {
    Amount::from_micro(value)
}

#[test]
fn aggregate_human_share_scales_without_materializing_population_grants() {
    let snapshot = HumanSnapshot { root: [7; 32], eligible_count: 20_000_000_000 };
    let plan = plan_human_share(42, YEAR_MS, amount(10_u128.pow(24)), snapshot, &IssuancePolicy::d0074())
        .unwrap();
    assert_eq!(plan.snapshot, snapshot);
    assert_eq!(plan.issued.checked_add(plan.unissued_remainder).unwrap(), plan.cap);
    assert!(plan.unissued_remainder.as_micro() < snapshot.eligible_count as u128);
}

#[test]
fn aggregate_human_share_requires_a_committed_nonempty_snapshot() {
    let error = plan_human_share(
        1,
        YEAR_MS,
        amount(1_000_000),
        HumanSnapshot { root: [0; 32], eligible_count: 1 },
        &IssuancePolicy::d0074(),
    )
    .unwrap_err();
    assert_eq!(error, EconomyError::InvalidSnapshot);
}

#[test]
fn human_share_splits_the_cap_equally_at_one_year() {
    let snapshot = HumanSnapshot { root: [1; 32], eligible_count: 3 };
    let plan = plan_human_share(5, YEAR_MS, amount(1_000_000), snapshot, &IssuancePolicy::d0074()).unwrap();
    assert_eq!(plan.cap, amount(20_000));
    assert_eq!(plan.per_human, amount(6_666));
    assert_eq!(plan.issued, amount(19_998));
    assert_eq!(plan.unissued_remainder, amount(2));
    assert_eq!(plan.vesting_ms, YEAR_MS);
    assert_eq!(
        plan_human_share(5, YEAR_MS, amount(1_000_000), HumanSnapshot { root: [1; 32], eligible_count: 0 }, &IssuancePolicy::d0074()),
        Err(EconomyError::InvalidSnapshot)
    );
}

#[test]
fn genesis_is_equal_order_independent_and_has_no_privileged_recipient() {
    let policy = GenesisPolicy { bootstrap_per_human: amount(1_000_000), vesting_ms: YEAR_MS };
    let a = build_genesis("mini-test", [7; 32], &["did:mini:z".into(), "did:mini:a".into()], &policy).unwrap();
    let b = build_genesis("mini-test", [7; 32], &["did:mini:a".into(), "did:mini:z".into()], &policy).unwrap();
    assert_eq!(a, b);
    assert_eq!(a.total_locked, amount(2_000_000));
    assert_eq!(a.recipients, vec!["did:mini:a", "did:mini:z"]);
}

#[test]
fn genesis_refuses_bad_shapes() {
    let policy = GenesisPolicy { bootstrap_per_human: amount(5), vesting_ms: 10 };
    assert_eq!(build_genesis("", [0; 32], &["a".into()], &policy), Err(EconomyError::InvalidGenesis));
    assert_eq!(build_genesis("c", [0; 32], &[], &policy), Err(EconomyError::InvalidGenesis));
    assert_eq!(
        build_genesis("c", [0; 32], &["a".into(), "a".into()], &policy),
        Err(EconomyError::DuplicateBeneficiary)
    );
    assert_eq!(build_genesis("c", [0; 32], &["".into()], &policy), Err(EconomyError::DuplicateBeneficiary));
    let zero = GenesisPolicy { bootstrap_per_human: amount(0), vesting_ms: 10 };
    assert_eq!(build_genesis("c", [0; 32], &["a".into()], &zero), Err(EconomyError::InvalidGenesis));
    let huge = GenesisPolicy { bootstrap_per_human: amount(u128::MAX), vesting_ms: 10 };
    assert_eq!(build_genesis("c", [0; 32], &["a".into(), "b".into()], &huge), Err(EconomyError::Overflow));
    let long_id = "x".repeat(129);
    assert_eq!(build_genesis(&long_id, [0; 32], &["a".into()], &policy), Err(EconomyError::InvalidGenesis));
}

#[test]
fn d0074_envelope_is_exact_at_one_year() {
    let request = EpochRequest {
        epoch: 1,
        duration_ms: YEAR_MS,
        opening_circulating: amount(1_000_000_000),
        eligible_humans: vec!["alice".into(), "bob".into()],
        service: vec![Allocation { beneficiary: "relay".into(), amount: amount(7_500_000) }],
        treasury: vec![Allocation { beneficiary: "contributor".into(), amount: amount(2_500_000) }],
    };
    let plan = plan_epoch(&request, &IssuancePolicy::d0074()).unwrap();
    assert_eq!(plan.human_issued, amount(20_000_000));
    assert_eq!(plan.service_issued, amount(7_500_000));
    assert_eq!(plan.treasury_issued, amount(2_500_000));
    assert_eq!(plan.total_issued, amount(30_000_000));
    let human: Vec<_> = plan.grants.iter().filter(|grant| grant.channel == Channel::HumanShare).collect();
    assert_eq!(human.len(), 2);
    assert_eq!(human[0].amount, human[1].amount);
    assert_eq!(human[0].vesting_ms, YEAR_MS);
}

#[test]
fn unused_optional_capacity_expires_instead_of_moving_to_humans_or_treasury() {
    let request = EpochRequest {
        epoch: 2,
        duration_ms: YEAR_MS,
        opening_circulating: amount(1_000_000),
        eligible_humans: vec!["alice".into()],
        service: vec![],
        treasury: vec![],
    };
    let plan = plan_epoch(&request, &IssuancePolicy::d0074()).unwrap();
    assert_eq!(plan.total_cap, amount(30_000));
    assert_eq!(plan.total_issued, amount(20_000));
}

#[test]
fn channel_and_total_caps_fail_closed() {
    let request = EpochRequest {
        epoch: 3,
        duration_ms: YEAR_MS,
        opening_circulating: amount(1_000_000),
        eligible_humans: vec!["alice".into()],
        service: vec![Allocation { beneficiary: "warehouse".into(), amount: amount(7_501) }],
        treasury: vec![],
    };
    assert!(plan_epoch(&request, &IssuancePolicy::d0074()).is_err());
}

#[test]
fn duplicate_humans_and_duplicate_channel_beneficiaries_are_rejected() {
    let duplicate_human = EpochRequest {
        epoch: 4,
        duration_ms: YEAR_MS,
        opening_circulating: amount(1_000_000),
        eligible_humans: vec!["alice".into(), "alice".into()],
        service: vec![],
        treasury: vec![],
    };
    assert!(plan_epoch(&duplicate_human, &IssuancePolicy::d0074()).is_err());
}

#[test]
fn u64_micro_mini_migrates_losslessly_into_century_scale_amount() {
    let old = u64::MAX;
    let widened = Amount::from(old);
    assert_eq!(widened.as_micro(), old as u128);
}

#[test]
fn amount_arithmetic_is_checked() {
    assert_eq!(amount(2).checked_add(amount(3)), Ok(amount(5)));
    assert_eq!(amount(u128::MAX).checked_add(amount(1)), Err(EconomyError::Overflow));
    assert_eq!(amount(5).checked_sub(amount(3)), Ok(amount(2)));
    assert_eq!(amount(3).checked_sub(amount(5)), Err(EconomyError::Underflow));
    assert_eq!(Amount::zero().as_micro(), 0);
    assert_eq!(Amount::from_u64(7).as_micro(), 7);
}

#[test]
fn fast_settlement_does_not_mint_every_round() {
    let cadence = SettlementCadence::new(4_000, 21_600).unwrap();
    assert_eq!(
        cadence.next_after(0).unwrap(),
        SettlementTarget { round: 1, elapsed_ms: 4_000, issuance_epoch: None }
    );
    assert_eq!(cadence.issuance_duration_ms(), 86_400_000);
    assert_eq!(cadence.next_after(21_599).unwrap().issuance_epoch, Some(0));
    assert_eq!(cadence.next_after(43_199).unwrap().issuance_epoch, Some(1));
    assert_eq!(cadence.next_after(21_600).unwrap().issuance_epoch, None);
    assert_eq!(cadence.target_round_ms(), 4_000);
}

#[test]
fn invalid_and_overflow_schedules_fail_closed() {
    assert!(SettlementCadence::new(0, 1).is_err());
    assert!(SettlementCadence::new(1, 0).is_err());
    assert!(SettlementCadence::new(YEAR_MS, 2).is_err());
    assert!(SettlementCadence::new(u64::MAX, 2).is_err());
    assert!(SettlementCadence::new(4_000, 1).unwrap().next_after(u64::MAX).is_err());
    assert!(SettlementCadence::new(4_000, 1).unwrap().next_after(u64::MAX / 4_000).is_err());
}

fn wire_plan() -> ScalableEpochPlan {
    ScalableEpochPlan {
        epoch: 7,
        duration_ms: 100,
        opening_circulating: amount(1_000),
        human: HumanSharePlan {
            epoch: 7,
            snapshot: HumanSnapshot { root: [3; 32], eligible_count: 10 },
            cap: amount(20),
            per_human: amount(2),
            issued: amount(20),
            unissued_remainder: Amount::zero(),
            vesting_ms: 50,
        },
        service_cap: amount(7),
        treasury_cap: amount(3),
        total_cap: amount(30),
        service_issued: amount(7),
        treasury_issued: amount(3),
        total_issued: amount(30),
        optional_grants: vec![VestingGrant {
            beneficiary: "service-a".to_string(),
            channel: Channel::Service,
            amount: amount(7),
            vesting_ms: 0,
        }],
    }
}

#[test]
fn exact_plan_round_trips() {
    let plan = wire_plan();
    let bytes = plan.to_wire_bytes().unwrap();
    assert_eq!(ScalableEpochPlan::from_wire_bytes(&bytes).unwrap(), plan);
}

#[test]
fn nested_human_fields_are_commitment_bearing() {
    let plan = wire_plan();
    let mut changed = plan.clone();
    changed.human.vesting_ms += 1;
    assert_ne!(plan.commitment(), changed.commitment());
    changed = plan.clone();
    changed.human.epoch += 1;
    assert_ne!(plan.commitment(), changed.commitment());
}

#[test]
fn malformed_and_oversized_inputs_fail_closed() {
    let plan = wire_plan();
    let bytes = plan.to_wire_bytes().unwrap();
    for cut in 0..bytes.len() {
        assert!(ScalableEpochPlan::from_wire_bytes(&bytes[..cut]).is_err());
    }
    let mut trailing = bytes;
    trailing.push(0);
    assert_eq!(ScalableEpochPlan::from_wire_bytes(&trailing), Err(EconomyError::MalformedEncoding));
    let mut oversized = plan;
    oversized.optional_grants = vec![
        VestingGrant {
            beneficiary: "a".to_string(),
            channel: Channel::Service,
            amount: Amount::zero(),
            vesting_ms: 0,
        };
        MAX_SCALABLE_EPOCH_GRANTS + 1
    ];
    assert_eq!(oversized.to_wire_bytes(), Err(EconomyError::LimitExceeded));
}

#[test]
fn wire_bytes_have_the_documented_layout() {
    let plan = wire_plan();
    let bytes = plan.canonical_bytes();
    assert_eq!(&bytes[..40], b"mini-economy/scalable-epoch-plan-wire/v1");
    assert_eq!(&bytes[40..48], &7u64.to_be_bytes());
    assert_eq!(&bytes[288..296], &1u64.to_be_bytes());
    assert_eq!(&bytes[296..304], &9u64.to_be_bytes());
    assert_eq!(&bytes[304..313], b"service-a");
    assert_eq!(bytes[313], 1);
    assert_eq!(bytes.len(), 296 + 8 + 9 + 1 + 16 + 8);
    assert_eq!(plan.to_wire_bytes().unwrap(), bytes);
    let mut wrong_domain = bytes.clone();
    wrong_domain[0] ^= 1;
    assert_eq!(ScalableEpochPlan::from_wire_bytes(&wrong_domain), Err(EconomyError::MalformedEncoding));
    let mut bad_channel = bytes.clone();
    bad_channel[313] = 9;
    assert_eq!(ScalableEpochPlan::from_wire_bytes(&bad_channel), Err(EconomyError::MalformedEncoding));
    let mut empty_name = plan.clone();
    empty_name.optional_grants[0].beneficiary = String::new();
    assert_eq!(empty_name.to_wire_bytes(), Err(EconomyError::LimitExceeded));
    assert_eq!(
        ScalableEpochPlan::from_wire_bytes(&vec![0u8; 2 * 1024 * 1024 + 1]),
        Err(EconomyError::LimitExceeded)
    );
}

#[test]
fn plan_commitment_is_the_hash_of_the_canonical_bytes() {
    let plan = wire_plan();
    assert_eq!(plan.commitment(), *blake3::hash(&plan.canonical_bytes()).as_bytes());
}

fn one_position() -> VestingPosition {
    VestingPosition {
        epoch: 0,
        subject: VestingSubject::HumanSnapshot(HumanSnapshot { root: [7; 32], eligible_count: 10 }),
        channel: Channel::HumanShare,
        amount: amount(500),
        starts_at_policy_ms: 1_000,
        duration_ms: 10_000,
    }
}

#[test]
fn export_import_round_trips_genesis() {
    let ledger = MonetaryLedger::new(amount(123));
    let restored = MonetaryLedger::import_snapshot(ledger.export_snapshot()).unwrap();
    assert_eq!(restored, ledger);
    assert_eq!(restored.commitment(), ledger.commitment());
}

#[test]
fn a_valid_position_snapshot_imports() {
    let snapshot = MonetaryLedgerSnapshot {
        genesis_circulating: amount(1_000),
        total_issued: amount(500),
        policy_time_ms: 1_000,
        last_epoch: Some(0),
        positions: vec![one_position()],
    };
    let ledger = MonetaryLedger::import_snapshot(snapshot.clone()).unwrap();
    assert_eq!(ledger.export_snapshot(), snapshot);
}

#[test]
fn issued_total_must_equal_positions() {
    let mut snapshot = MonetaryLedgerSnapshot {
        genesis_circulating: amount(1_000),
        total_issued: amount(499),
        policy_time_ms: 1_000,
        last_epoch: Some(0),
        positions: vec![one_position()],
    };
    assert_eq!(MonetaryLedger::import_snapshot(snapshot.clone()), Err(EconomyError::InvalidSnapshot));
    snapshot.total_issued = amount(500);
    snapshot.positions[0].starts_at_policy_ms = 1_001;
    assert_eq!(MonetaryLedger::import_snapshot(snapshot), Err(EconomyError::InvalidSnapshot));
}

#[test]
fn malformed_subjects_are_rejected() {
    let mut position = one_position();
    position.subject = VestingSubject::Beneficiary(String::new());
    let snapshot = MonetaryLedgerSnapshot {
        genesis_circulating: amount(1_000),
        total_issued: position.amount,
        policy_time_ms: 1_000,
        last_epoch: Some(0),
        positions: vec![position],
    };
    assert_eq!(MonetaryLedger::import_snapshot(snapshot), Err(EconomyError::InvalidSnapshot));
}

#[test]
fn snapshot_epochs_beyond_the_last_are_rejected() {
    let snapshot = MonetaryLedgerSnapshot {
        genesis_circulating: amount(1_000),
        total_issued: amount(500),
        policy_time_ms: 1_000,
        last_epoch: None,
        positions: vec![one_position()],
    };
    assert_eq!(MonetaryLedger::import_snapshot(snapshot), Err(EconomyError::InvalidSnapshot));
    let mut later = one_position();
    later.epoch = 3;
    let snapshot = MonetaryLedgerSnapshot {
        genesis_circulating: amount(1_000),
        total_issued: amount(500),
        policy_time_ms: 1_000,
        last_epoch: Some(2),
        positions: vec![later],
    };
    assert_eq!(MonetaryLedger::import_snapshot(snapshot), Err(EconomyError::InvalidSnapshot));
}

#[test]
fn vesting_is_linear_and_floored() {
    let p = one_position();
    assert_eq!(p.vested_at(999).unwrap(), amount(0));
    assert_eq!(p.vested_at(1_000).unwrap(), amount(0));
    assert_eq!(p.vested_at(6_000).unwrap(), amount(250));
    assert_eq!(p.vested_at(6_019).unwrap(), amount(250));
    assert_eq!(p.vested_at(11_000).unwrap(), amount(500));
    assert_eq!(p.vested_at(u128::MAX).unwrap(), amount(500));
}

#[test]
fn a_ledger_applies_its_next_scalable_epoch() {
    let policy = IssuancePolicy::d0074();
    let ledger = MonetaryLedger::new(amount(1_000_000));
    let request = ScalableEpochRequest {
        epoch: 0,
        duration_ms: YEAR_MS,
        opening_circulating: amount(1_000_000),
        human_snapshot: HumanSnapshot { root: [9; 32], eligible_count: 4 },
        service: vec![Allocation { beneficiary: "relay".into(), amount: amount(7_000) }],
        treasury: vec![],
    };
    let plan = plan_scalable_epoch(&request, &policy).unwrap();
    assert_eq!(plan.human.issued, amount(20_000));
    assert_eq!(plan.total_issued, amount(27_000));
    let next = ledger.apply_epoch(&plan, &policy).unwrap();
    assert_eq!(next.last_epoch(), Some(0));
    assert_eq!(next.total_issued(), amount(27_000));
    assert_eq!(next.total_supply().unwrap(), amount(1_027_000));
    assert_eq!(next.policy_time_ms(), YEAR_MS as u128);
    assert_eq!(next.positions().len(), 2);
    assert_eq!(ledger.apply_epoch(&plan, &policy).unwrap(), next);
    assert_eq!(next.apply_epoch(&plan, &policy), Err(EconomyError::UnexpectedEpoch));
    let restored = MonetaryLedger::import_snapshot(next.export_snapshot()).unwrap();
    assert_eq!(restored, next);
    assert_eq!(restored.commitment(), next.commitment());
    assert_eq!(
        next.circulating_supply().unwrap().checked_add(next.locked_supply().unwrap()).unwrap(),
        next.total_supply().unwrap()
    );
    let mut tampered = plan.clone();
    tampered.total_issued = amount(27_001);
    assert_eq!(ledger.apply_epoch(&tampered, &policy), Err(EconomyError::InvalidEpochPlan));
}

#[test]
fn a_ledger_after_several_epochs_round_trips_through_its_snapshot() {
    let policy = IssuancePolicy::d0074();
    let mut ledger = MonetaryLedger::new(amount(1_000_000));
    for epoch in 0..3u64 {
        let opening = ledger.circulating_supply().unwrap();
        let request = ScalableEpochRequest {
            epoch,
            duration_ms: YEAR_MS / 2,
            opening_circulating: opening,
            human_snapshot: HumanSnapshot { root: [epoch as u8 + 1; 32], eligible_count: 3 },
            service: vec![Allocation { beneficiary: format!("relay-{epoch}"), amount: amount(1_000) }],
            treasury: vec![Allocation { beneficiary: "commons".into(), amount: amount(500) }],
        };
        let plan = plan_scalable_epoch(&request, &policy).unwrap();
        ledger = ledger.apply_epoch(&plan, &policy).unwrap();
        let restored = MonetaryLedger::import_snapshot(ledger.export_snapshot()).unwrap();
        assert_eq!(restored, ledger);
        let circulating = ledger.circulating_supply().unwrap();
        let locked = ledger.locked_supply().unwrap();
        assert!(circulating <= ledger.total_supply().unwrap());
        assert_eq!(circulating.checked_add(locked).unwrap(), ledger.total_supply().unwrap());
    }
    assert_eq!(ledger.positions().len(), 9);
    assert_eq!(ledger.last_epoch(), Some(2));
    assert_eq!(ledger.policy_time_ms(), 3 * (YEAR_MS / 2) as u128);
}
