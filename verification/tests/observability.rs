//! What is told of sizes and transactions.

use control::log_types::TransactionState;
use control::observability::{PartitionRetentionSize, TransactionStateCounts};
use control::PartitionKey;

#[test]
fn retention_percentage_is_integer_unbounded_and_overflow_safe() {
    let observation = |size_bytes, retention_bytes| PartitionRetentionSize {
        partition: PartitionKey::new("events", 0),
        size_bytes,
        retention_bytes,
    };

    assert_eq!(observation(2, 3).percent(), 66);
    assert_eq!(observation(3, 2).percent(), 150);
    assert_eq!(observation(10, -1).percent(), 0);
    assert_eq!(observation(10, 0).percent(), 0);
    assert_eq!(observation(i64::MAX, 1).percent(), i64::MAX);
}

#[test]
fn states_are_counted_apart() {
    let mut counts = TransactionStateCounts::default();
    counts.record(TransactionState::Empty);
    counts.record(TransactionState::Ongoing);
    counts.record(TransactionState::Ongoing);
    counts.record(TransactionState::CompleteCommit);
    counts.record(TransactionState::CompleteAbort);
    assert_eq!((counts.empty, counts.ongoing, counts.complete_commit, counts.complete_abort), (1, 2, 1, 1));
}
