//! Decisions over rows that a database holds.

use control::compaction::CompactionTransactionState;
use control::log_types::{BatchDraft, FetchIsolation, ObjectRef, OffsetCommit, PartitionWatermarks, ProducerBatch, SpanIntegrity, StoredSpan};
use control::row_commit::{
    initial_transaction_state, next_history_start, next_step, plan_commit, BatchAnswers, PartitionRow, ProducerRow, SequenceRow, Step,
    TransactionRow,
};
use control::row_rules::{
    check_commit, check_group_deletion, check_member_epoch, check_offset, check_staged, fetch_rows, lag, move_start, object_size,
    offset_due, order_rows, pick_offset, pick_sources, transaction_state, transaction_state_name, ObjectRow, SpanRow,
};
use control::{ControlError, PartitionKey};

fn orders() -> PartitionKey {
    PartitionKey::new("orders", 0)
}

fn batch() -> BatchDraft {
    BatchDraft {
        partition: orders(),
        byte_start: 0,
        byte_end: 10,
        record_count: 4,
        timestamp_ms: 3,
        checksum: None,
        producer: Some(ProducerBatch { producer_id: 1, producer_epoch: 0, first_sequence: 5, last_sequence: 8 }),
        transactional_id: Some("tx".to_owned()),
        verify_transaction_partition: true,
    }
}

fn span(base: i64, last: i64) -> StoredSpan {
    StoredSpan {
        partition: orders(),
        object_key: "one".to_owned(),
        byte_start: 0,
        byte_end: 10,
        base_offset: base,
        last_offset: last,
        record_count: (last - base + 1) as i32,
        timestamp_ms: base,
        integrity: SpanIntegrity::from_checksum(None),
        producer: None,
        transaction_id: None,
        offsets_preserved: false,
    }
}

fn row(base: i64, last: i64, state: &str) -> SpanRow {
    SpanRow { span: span(base, last), state: state.to_owned() }
}

#[test]
fn a_batch_is_stored_step_by_step() {
    let batch = batch();
    let mut answers = BatchAnswers::new();
    let step = |answers: &BatchAnswers| next_step("object", &batch, answers);
    assert!(matches!(step(&answers), Ok(Step::ReadPartition)));
    answers.partition = Some(Some(PartitionRow { next_offset: 20, topic_id: 11 }));
    assert!(matches!(step(&answers), Ok(Step::ReadProducer)));
    answers.producer = Some(Some(ProducerRow {
        epoch: 0,
        transactional_id: Some("tx".to_owned()),
        current_transaction_id: Some(9),
        two_phase_commit: false,
    }));
    assert!(matches!(step(&answers), Ok(Step::ReadTransaction(9))));
    answers.transaction = Some(Some(TransactionRow { ongoing: true, partition_added: false }));
    assert!(matches!(step(&answers), Err(ControlError::InvalidTransactionState(_))));
    answers.transaction = Some(Some(TransactionRow { ongoing: true, partition_added: true }));
    assert!(matches!(step(&answers), Ok(Step::ReadSequence)));
    answers.sequence = Some(Some(SequenceRow { epoch: 0, last_sequence: 4, history_start_offset: 2 }));
    assert!(matches!(step(&answers), Ok(Step::ReadDuplicate(2))));
    answers.duplicate = Some(Some(span(3, 6)));
    assert!(matches!(step(&answers), Ok(Step::Answer(found)) if found.base_offset == 3 && found.producer == batch.producer));
    answers.duplicate = Some(None);
    match step(&answers) {
        Ok(Step::Append(new)) => {
            assert_eq!((new.span.base_offset, new.span.last_offset, new.next_offset), (20, 23, 24));
            assert_eq!(new.span.transaction_id, Some(9));
            assert_eq!(new.history_floor, Some(2));
        }
        _ => panic!("the batch is new"),
    }
    answers.sequence = Some(Some(SequenceRow { epoch: 0, last_sequence: 6, history_start_offset: 2 }));
    assert!(matches!(step(&answers), Err(ControlError::OutOfOrderSequence { expected: 7, actual: 5, .. })));
    assert_eq!(initial_transaction_state(Some(9)), "pending");
    assert_eq!(initial_transaction_state(None), "visible");
    assert_eq!(next_history_start(Some(2), Some(3), 20), 3);
    assert_eq!(next_history_start(None, Some(3), 20), 20);
}

#[test]
fn commits_are_planned_in_a_fixed_order() {
    let mut second = batch();
    second.partition = PartitionKey::new("alpha", 1);
    second.producer = None;
    let plan = plan_commit(&vec![batch(), second, batch()]).unwrap();
    let order: Vec<usize> = plan.order.iter().map(|place| place.1).collect();
    assert_eq!(order, [1, 0, 2]);
    assert_eq!(plan.producer_ids, [1]);
    assert!(matches!(plan_commit(&Vec::new()), Err(ControlError::InvalidRequest(_))));
    assert_eq!(order_rows(&vec![(2, 0), (1, 5), (2, 0), (1, 3)]).iter().map(|place| place.1).collect::<Vec<_>>(), [3, 1, 0, 2]);
}

#[test]
fn rows_are_fetched_as_logs_are() {
    let marks = PartitionWatermarks { high_watermark: 30, last_stable_offset: 20, log_start_offset: 0 };
    let rows = vec![row(0, 4, "visible"), row(5, 9, "aborted"), row(10, 14, "committed"), row(20, 24, "pending")];
    let bases = |isolation, max| -> Vec<i64> { fetch_rows(&rows, max, isolation, marks).spans.iter().map(|span| span.base_offset).collect() };
    assert_eq!(bases(FetchIsolation::ReadCommitted, 1_000), [0, 10]);
    assert_eq!(bases(FetchIsolation::ReadUncommitted, 1_000), [0, 5, 10, 20]);
    assert_eq!(bases(FetchIsolation::ReadUncommitted, 15), [0]);
    assert_eq!(check_offset(&orders(), 30, marks), Ok(()));
    assert!(matches!(check_offset(&orders(), 31, marks), Err(ControlError::OffsetOutOfRange { .. })));
    assert_eq!(pick_offset(-2, 3, 9, Some(5)), 3);
    assert_eq!(pick_offset(-1, 3, 9, Some(5)), 9);
    assert_eq!(pick_offset(100, 3, 9, Some(5)), 5);
    assert_eq!(pick_offset(100, 3, 9, None), 9);
    assert_eq!(move_start(&orders(), -1, 9, 3, Some(6)), Ok(6));
    assert_eq!(move_start(&orders(), 1, 9, 3, None), Ok(3));
    assert!(matches!(move_start(&orders(), 10, 9, 3, None), Err(ControlError::OffsetOutOfRange { .. })));
}

#[test]
fn rows_are_compacted_up_to_the_first_open_one() {
    let rows = vec![row(0, 4, "visible"), row(5, 9, "aborted"), row(10, 14, "pending"), row(15, 19, "visible")];
    let sources = pick_sources(&rows, &vec![1, 2, 3, 4], 100).unwrap();
    assert_eq!(sources.iter().map(|source| source.id).collect::<Vec<_>>(), [1, 2]);
    assert_eq!(sources[1].transaction_state, CompactionTransactionState::Aborted);
    assert_eq!(pick_sources(&rows, &vec![1, 2, 3, 4], 4).unwrap().len(), 1);
    assert!(pick_sources(&vec![row(0, 4, "odd")], &vec![1], 100).is_err());
    for state in [CompactionTransactionState::Visible, CompactionTransactionState::Committed, CompactionTransactionState::Aborted] {
        assert_eq!(transaction_state(transaction_state_name(state)), Ok(state));
    }
}

#[test]
fn rows_of_objects_groups_and_offsets_are_checked() {
    let object = ObjectRef { key: "one".to_owned(), size: 10 };
    let staged = |size_bytes, committed, claimed| check_staged(&object, Some(ObjectRow { size_bytes, committed, claimed }));
    assert_eq!(staged(10, false, false), Ok(()));
    assert!(staged(11, false, false).is_err() && staged(10, true, false).is_err() && staged(10, false, true).is_err());
    assert!(check_staged(&object, None).is_err());
    assert_eq!(object_size(&object), Ok(10));
    assert!(object_size(&ObjectRef { key: "big".to_owned(), size: u64::MAX }).is_err());
    assert!(matches!(check_group_deletion("g", 1, true), Err(ControlError::NonEmptyGroup(_))));
    assert!(matches!(check_group_deletion("g", 0, false), Err(ControlError::GroupNotFound(_))));
    assert_eq!(check_group_deletion("g", 0, true), Ok(()));
    assert!(matches!(check_member_epoch("g", "m", None, 3), Err(ControlError::GroupMemberNotFound { .. })));
    assert!(matches!(check_member_epoch("g", "m", Some(4), 3), Err(ControlError::FencedMemberEpoch { .. })));
    assert_eq!(check_member_epoch("g", "m", Some(3), 3), Ok(()));
    let commit = OffsetCommit { partition: orders(), offset: 1, leader_epoch: -1, metadata: None, retention_time_ms: Some(5) };
    assert_eq!(check_commit(&commit, true, true, 100), Ok(Some(105)));
    assert!(matches!(check_commit(&commit, false, true, 100), Err(ControlError::TopicNotFound(_))));
    assert!(matches!(check_commit(&commit, true, false, 100), Err(ControlError::PartitionNotFound { .. })));
    assert_eq!(offset_due(100, 50, 60, Some(100)), Some(true));
    assert_eq!(offset_due(100, 50, 60, Some(101)), Some(false));
    assert_eq!(lag(10, 4), 6);
    assert_eq!(lag(4, 10), 0);
}
