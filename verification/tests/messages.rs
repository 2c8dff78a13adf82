use mininet::economy_error::EconomyError;
use mininet::engagement::EngagementError;
use mininet::erasure::ErasureError;

#[test]
fn erasure_errors_read_as_sentences() {
    assert_eq!(ErasureError::EmptyData.message(), "cannot encode zero bytes");
    assert_eq!(
        ErasureError::InvalidParams { data_shards: 0, parity_shards: 300 }.message(),
        "invalid erasure params: data_shards=0, parity_shards=300 (need both >= 1 and their sum <= 255)"
    );
    assert_eq!(
        ErasureError::WrongShardCount { expected: 6, got: 5 }.message(),
        "expected 6 shard slots, got 5"
    );
    assert_eq!(
        ErasureError::TooManyMissingShards { available: 2, needed: 4 }.message(),
        "only 2 shards available, need at least 4 to reconstruct"
    );
    assert_eq!(
        ErasureError::SingularSubmatrix.message(),
        "internal error: selected shard rows produced a singular matrix"
    );
    assert_eq!(
        ErasureError::IntegrityMismatch { shard_index: 12 }.message(),
        "shard 12 failed its integrity check"
    );
}

#[test]
fn engagement_and_economy_errors_have_their_display_text() {
    assert_eq!(EngagementError::InvalidTransition.message(), "invalid engagement state transition");
    assert_eq!(
        EngagementError::MilestoneExceedsEscrow.message(),
        "milestone release would exceed the escrowed amount"
    );
    assert_eq!(EconomyError::Overflow.describe(), "Overflow");
    assert_eq!(EconomyError::InvalidSnapshot.describe(), "InvalidSnapshot");
    assert_eq!(EconomyError::Overflow.describe(), format!("{:?}", EconomyError::Overflow));
}
