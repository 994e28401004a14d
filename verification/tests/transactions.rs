//! Producers, transactions and the offsets that they hold.

use control::log_types::{
    BatchDraft, FetchIsolation, LogState, ObjectRef, OffsetCommit, ProducerBatch, ProducerSession, TopicConfig, TransactionFilter,
    TransactionState,
};
use control::producers::{effective_transaction_timeout, validate_current_producer, validate_two_phase_options};
use control::transaction_queries::select_transaction_descriptions;
use control::{ControlError, PartitionKey, Timestamp};

fn config() -> TopicConfig {
    TopicConfig {
        delete_records: true,
        compact_records: false,
        retention_ms: -1,
        retention_bytes: -1,
        file_delete_delay_ms: 1_000,
        delete_retention_ms: 86_400_000,
        min_compaction_lag_ms: 0,
        max_compaction_lag_ms: i64::MAX,
    }
}

fn orders() -> PartitionKey {
    PartitionKey::new("orders", 0)
}

fn at(millis: i64) -> Timestamp {
    Timestamp { nanos: millis as i128 * 1_000_000 }
}

fn log() -> LogState {
    let mut log = LogState::new(config());
    log.create_topic("orders", 1, None, None, 11).unwrap();
    log
}

fn start(log: &mut LogState) -> ProducerSession {
    log.init_producer_with_options(Some("tx"), 60_000, None, false, false, 0).unwrap().producer
}

fn send(log: &mut LogState, key: &str, producer: ProducerSession, sequence: i32, transactional: bool) -> Result<i64, ControlError> {
    let batch = BatchDraft {
        partition: orders(),
        byte_start: 0,
        byte_end: 10,
        record_count: 1,
        timestamp_ms: 0,
        checksum: None,
        producer: Some(ProducerBatch {
            producer_id: producer.producer_id,
            producer_epoch: producer.producer_epoch,
            first_sequence: sequence,
            last_sequence: sequence,
        }),
        transactional_id: if transactional { Some("tx".to_owned()) } else { None },
        verify_transaction_partition: true,
    };
    log.commit_object(ObjectRef { key: key.to_owned(), size: 10 }, vec![batch]).map(|spans| spans[0].base_offset)
}

fn visible(log: &LogState, isolation: FetchIsolation) -> Vec<i64> {
    log.fetch(&orders(), 0, 1_000, isolation).unwrap().spans.iter().map(|span| span.base_offset).collect()
}

fn commit(offset: i64) -> OffsetCommit {
    OffsetCommit { partition: orders(), offset, leader_epoch: -1, metadata: None, retention_time_ms: None }
}

#[test]
fn committed_records_show_and_aborted_ones_do_not() {
    let mut log = log();
    let producer = start(&mut log);
    assert!(matches!(send(&mut log, "early", producer, 0, true), Err(ControlError::InvalidTransactionState(_))));
    log.add_partitions_to_transaction("tx", producer, &[orders()], false, 1, at(0)).unwrap();
    assert_eq!(send(&mut log, "a", producer, 0, true), Ok(0));
    assert_eq!(visible(&log, FetchIsolation::ReadUncommitted), [0]);
    assert!(visible(&log, FetchIsolation::ReadCommitted).is_empty());
    let marks = log.partition_watermarks(&orders()).unwrap();
    assert_eq!((marks.last_stable_offset, marks.high_watermark), (0, 1));
    log.end_transaction("tx", producer, true, at(1)).unwrap();
    assert_eq!(visible(&log, FetchIsolation::ReadCommitted), [0]);

    log.add_partitions_to_transaction("tx", producer, &[orders()], false, 2, at(2)).unwrap();
    assert_eq!(send(&mut log, "b", producer, 1, true), Ok(1));
    log.end_transaction("tx", producer, false, at(3)).unwrap();
    assert_eq!(visible(&log, FetchIsolation::ReadCommitted), [0]);
    assert_eq!(visible(&log, FetchIsolation::ReadUncommitted), [0, 1]);
    assert!(matches!(log.end_transaction("tx", producer, true, at(4)), Err(ControlError::InvalidTransactionState(_))));
}

#[test]
fn offsets_wait_for_the_commit() {
    let mut log = log();
    let producer = start(&mut log);
    assert!(matches!(
        log.commit_transaction_offsets("tx", producer, "readers", false, vec![commit(5)], 1, at(0)),
        Err(ControlError::InvalidTransactionState(_))
    ));
    log.add_offsets_to_transaction("tx", producer, "readers", 1, at(0)).unwrap();
    log.commit_transaction_offsets("tx", producer, "readers", false, vec![commit(5)], 2, at(0)).unwrap();
    assert!(matches!(
        log.commit_transaction_offsets("tx", producer, "others", false, vec![commit(5)], 2, at(0)),
        Err(ControlError::InvalidTransactionState(_))
    ));
    assert!(log.fetch_offsets("readers", &[orders()]).unwrap().is_empty());
    log.end_transaction("tx", producer, true, at(7)).unwrap();
    let stored = log.fetch_offsets("readers", &[orders()]).unwrap();
    assert_eq!(stored.get(&orders()).unwrap().offset, 5);

    log.commit_transaction_offsets("tx", producer, "readers", true, vec![commit(9)], 3, at(8)).unwrap();
    log.end_transaction("tx", producer, false, at(9)).unwrap();
    assert_eq!(log.fetch_offsets("readers", &[orders()]).unwrap().get(&orders()).unwrap().offset, 5);
}

#[test]
fn a_repeated_end_is_answered_alike() {
    let mut log = log();
    let producer = start(&mut log);
    log.add_partitions_to_transaction("tx", producer, &[orders()], false, 1, at(0)).unwrap();
    let next = log.end_transaction_with_epoch_bump("tx", producer, true, 2, at(1)).unwrap();
    assert_eq!((next.producer_id, next.producer_epoch), (producer.producer_id, producer.producer_epoch + 1));
    assert_eq!(log.end_transaction_with_epoch_bump("tx", producer, true, 3, at(2)), Ok(next));
    assert!(matches!(
        log.end_transaction_with_epoch_bump("tx", producer, false, 3, at(2)),
        Err(ControlError::InvalidTransactionState(_))
    ));
    assert!(matches!(
        log.add_partitions_to_transaction("tx", producer, &[orders()], false, 4, at(3)),
        Err(ControlError::ProducerFenced { .. })
    ));
    assert_eq!(log.add_partitions_to_transaction("tx", next, &[orders()], false, 4, at(3)), Ok(()));
}

#[test]
fn a_new_session_fences_the_one_before() {
    let mut log = log();
    let first = start(&mut log);
    log.add_partitions_to_transaction("tx", first, &[orders()], false, 1, at(0)).unwrap();
    assert_eq!(send(&mut log, "a", first, 0, true), Ok(0));
    let second = start(&mut log);
    assert_eq!((second.producer_id, second.producer_epoch), (first.producer_id, first.producer_epoch + 1));
    assert!(matches!(send(&mut log, "b", first, 1, true), Err(ControlError::ProducerFenced { expected_epoch: 1, actual_epoch: 0, .. })));
    assert!(visible(&log, FetchIsolation::ReadCommitted).is_empty());
    assert_eq!(log.partition_watermarks(&orders()).unwrap().last_stable_offset, 1);
}

#[test]
fn prepared_transactions_survive_a_restart() {
    let mut log = log();
    let first = log.init_producer_with_options(Some("tx"), 60_000, None, true, false, 0).unwrap().producer;
    log.add_partitions_to_transaction("tx", first, &[orders()], false, 1, at(0)).unwrap();
    assert_eq!(send(&mut log, "a", first, 0, true), Ok(0));
    let kept = log.init_producer_with_options(Some("tx"), 60_000, None, true, true, 0).unwrap();
    assert_eq!(kept.ongoing_transaction, Some(first));
    assert!(matches!(
        log.add_partitions_to_transaction("tx", kept.producer, &[orders()], false, 2, at(1)),
        Err(ControlError::InvalidTransactionState(_))
    ));
    log.end_transaction("tx", kept.producer, true, at(2)).unwrap();
    assert_eq!(visible(&log, FetchIsolation::ReadCommitted), [0]);
    assert!(matches!(
        log.init_producer_with_options(None, 0, None, true, false, 0),
        Err(ControlError::InvalidRequest(_))
    ));
}

#[test]
fn overdue_transactions_are_aborted() {
    let mut log = log();
    let producer = start(&mut log);
    log.add_partitions_to_transaction("tx", producer, &[orders()], false, 1, at(0)).unwrap();
    assert_eq!(log.abort_expired_transactions(at(59_999)), 0);
    assert_eq!(log.abort_expired_transactions(at(60_000)), 1);
    assert_eq!(log.abort_expired_transactions(at(60_000)), 0);
    assert!(matches!(log.end_transaction("tx", producer, true, at(60_001)), Err(ControlError::InvalidTransactionState(_))));
    let told = log.describe_transactions(&["tx".to_owned(), "unknown".to_owned()]);
    assert_eq!(told.len(), 1);
    assert_eq!(told.get(&"tx".to_owned()).unwrap().state, TransactionState::CompleteAbort);
    assert_eq!(log.transaction_state_counts().complete_abort, 1);
}

#[test]
fn markers_end_transactions_once() {
    let mut log = log();
    let producer = start(&mut log);
    assert!(matches!(
        log.write_transaction_marker(producer, &[orders()], true, 1, 1, 0),
        Err(ControlError::UnknownProducer(_))
    ));
    log.add_partitions_to_transaction("tx", producer, &[orders()], false, 1, at(0)).unwrap();
    assert_eq!(send(&mut log, "a", producer, 0, true), Ok(0));
    assert!(matches!(log.write_transaction_marker(producer, &[], true, 1, 1, 0), Err(ControlError::InvalidRequest(_))));
    assert!(matches!(
        log.write_transaction_marker(producer, &[PartitionKey::new("orders", 7)], true, 1, 1, 0),
        Err(ControlError::InvalidTransactionState(_))
    ));
    assert_eq!(log.write_transaction_marker(producer, &[orders()], true, 5, 1, 0), Ok(()));
    assert_eq!(visible(&log, FetchIsolation::ReadCommitted), [0]);
    assert_eq!(log.write_transaction_marker(producer, &[orders()], true, 5, 1, 0), Ok(()));
    assert!(matches!(
        log.write_transaction_marker(producer, &[orders()], true, 4, 1, 0),
        Err(ControlError::TransactionCoordinatorFenced { current_epoch: 5, requested_epoch: 4, .. })
    ));
    assert!(matches!(
        log.write_transaction_marker(producer, &[orders()], false, 5, 1, 0),
        Err(ControlError::InvalidTransactionState(_))
    ));
}

#[test]
fn timeouts_and_sessions_are_checked() {
    assert_eq!(effective_transaction_timeout(Some("tx"), 5), Ok(5));
    assert!(matches!(effective_transaction_timeout(Some("tx"), 0), Err(ControlError::InvalidTransactionTimeout(0))));
    assert!(effective_transaction_timeout(None, 0).is_ok());
    let session = ProducerSession { producer_id: 3, producer_epoch: 4 };
    assert_eq!(validate_current_producer(3, 4, Some(session)), Ok(()));
    assert_eq!(validate_current_producer(3, 4, None), Ok(()));
    assert_eq!(validate_current_producer(5, 4, Some(session)), Err(ControlError::UnknownProducer(3)));
    assert!(matches!(validate_current_producer(3, 9, Some(session)), Err(ControlError::ProducerFenced { .. })));
}

#[test]
fn idle_ids_are_given_up_but_not_those_in_use() {
    let mut log = log();
    let idle = log.init_producer_with_options(Some("idle"), 60_000, None, false, false, 0).unwrap().producer;
    let busy = start(&mut log);
    log.add_partitions_to_transaction("tx", busy, &[orders()], false, 1, at(0)).unwrap();
    assert!(matches!(log.expire_transactional_ids(100, 0, 10), Err(ControlError::InvalidRequest(_))));
    assert_eq!(log.expire_transactional_ids(1_000, 500, 10), Ok(1));
    assert!(matches!(
        log.add_partitions_to_transaction("idle", idle, &[orders()], false, 2, at(1)),
        Err(ControlError::TransactionNotFound(_))
    ));
    assert_eq!(log.add_partitions_to_transaction("tx", busy, &[orders()], false, 2, at(1)), Ok(()));
}

#[test]
fn transactions_are_listed_by_filter() {
    let mut log = log();
    let producer = start(&mut log);
    log.add_partitions_to_transaction("tx", producer, &[orders()], false, 1, at(1_000)).unwrap();
    let mut filter = TransactionFilter { state_filters: Vec::new(), producer_id_filters: Vec::new(), min_duration_ms: None, transactional_id_pattern: None };
    assert_eq!(log.list_transactions(&filter, 2_000).unwrap().len(), 1);
    filter.min_duration_ms = Some(1_001);
    assert!(log.list_transactions(&filter, 2_000).unwrap().is_empty());
    filter.min_duration_ms = Some(1_000);
    filter.transactional_id_pattern = Some("t.".to_owned());
    assert_eq!(log.list_transactions(&filter, 2_000).unwrap().len(), 1);
    filter.transactional_id_pattern = Some("y".to_owned());
    assert!(log.list_transactions(&filter, 2_000).unwrap().is_empty());
    filter.transactional_id_pattern = Some("(".to_owned());
    assert!(matches!(log.list_transactions(&filter, 2_000), Err(ControlError::InvalidRegularExpression(_))));
    filter.transactional_id_pattern = Some("anything".to_owned());
    let all = log.list_transactions(
        &TransactionFilter { state_filters: Vec::new(), producer_id_filters: Vec::new(), min_duration_ms: None, transactional_id_pattern: None },
        2_000,
    );
    assert_eq!(select_transaction_descriptions(&all.unwrap(), &filter, 2_000, &vec![true]).len(), 1);
}

#[test]
fn producers_are_told_and_forgotten() {
    let mut log = log();
    let idle = log.init_producer_with_options(None, 60_000, None, false, false, 0).unwrap().producer;
    let busy = start(&mut log);
    send(&mut log, "one", idle, 0, false).unwrap();
    log.add_partitions_to_transaction("tx", busy, &[orders()], false, 1, at(0)).unwrap();
    send(&mut log, "two", busy, 0, true).unwrap();
    let told = log.describe_producers(&orders()).unwrap();
    assert_eq!(told.len(), 2);
    assert_eq!((told[0].producer_id, told[0].last_sequence, told[0].current_transaction_start_offset), (idle.producer_id, 0, -1));
    assert_eq!((told[1].producer_id, told[1].current_transaction_start_offset), (busy.producer_id, 1));
    assert!(matches!(log.describe_producers(&PartitionKey::new("gone", 0)), Err(ControlError::PartitionNotFound { .. })));

    assert!(matches!(log.expire_producer_sequences(1_000, 0, 10), Err(ControlError::InvalidRequest(_))));
    assert_eq!(log.expire_producer_sequences(1_000, 2_000, 10), Ok(0));
    assert_eq!(log.expire_producer_sequences(1_000, 500, 10), Ok(1));
    assert_eq!(log.describe_producers(&orders()).unwrap().len(), 1);
}

#[test]
fn two_phase_commits_need_a_transactional_id() {
    assert_eq!(validate_two_phase_options(Some("tx"), true, true), Ok(()));
    assert_eq!(validate_two_phase_options(None, false, false), Ok(()));
    for (enable, keep) in [(true, false), (false, true)] {
        assert_eq!(
            validate_two_phase_options(None, enable, keep),
            Err(ControlError::InvalidRequest("two-phase commit options require a transactional id".to_owned()))
        );
    }
}

#[test]
fn states_have_names() {
    let names = [TransactionState::Empty, TransactionState::Ongoing, TransactionState::CompleteCommit, TransactionState::CompleteAbort]
        .map(|state| state.kafka_name());
    assert_eq!(names, ["Empty", "Ongoing", "CompleteCommit", "CompleteAbort"]);
}
