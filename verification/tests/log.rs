//! Logs: what is written, read, kept and let go.

use control::fresh;
use control::log_append::{increment_producer_sequence, validate_sequence};
use control::log_types::{
    BatchDraft, FetchIsolation, LogState, ObjectRef, ProducerBatch, ProducerSession, StoredSpan, TopicConfig,
};
use control::{ControlError, PartitionKey};

fn config() -> TopicConfig {
    TopicConfig {
        delete_records: true,
        compact_records: false,
        retention_ms: -1,
        retention_bytes: -1,
        file_delete_delay_ms: 1_000,
        delete_retention_ms: 86_400_000,
        min_compaction_lag_ms: 0,
        max_compaction_lag_ms: i64::MAX,
    }
}

fn object(key: &str) -> ObjectRef {
    ObjectRef { key: key.to_owned(), size: 1_000 }
}

fn batch(partition: i32, bytes: u64, records: i32, timestamp_ms: i64) -> BatchDraft {
    BatchDraft {
        partition: PartitionKey::new("orders", partition),
        byte_start: 0,
        byte_end: bytes,
        record_count: records,
        timestamp_ms,
        checksum: Some(vec![7]),
        producer: None,
        transactional_id: None,
        verify_transaction_partition: true,
    }
}

fn log() -> LogState {
    let mut log = LogState::new(config());
    log.create_topic("orders", 2, None, None, 11).unwrap();
    log
}

fn orders(partition: i32) -> PartitionKey {
    PartitionKey::new("orders", partition)
}

fn bases(spans: &[StoredSpan]) -> Vec<(i64, i64)> {
    spans.iter().map(|span| (span.base_offset, span.last_offset)).collect()
}

#[test]
fn topics_come_grow_and_go() {
    let mut log = log();
    assert!(matches!(log.create_topic("orders", 1, None, None, 12), Err(ControlError::TopicAlreadyExists(_))));
    assert!(matches!(log.create_topic("other", 0, None, None, 12), Err(ControlError::InvalidRequest(_))));
    assert!(matches!(
        log.create_topic("other", 1, Some(ControlError::InvalidTopic("other".to_owned())), None, 12),
        Err(ControlError::InvalidTopic(_))
    ));
    assert!(matches!(
        log.create_partitions("orders", 2),
        Err(ControlError::InvalidPartitionCount { current: 2, requested: 2, .. })
    ));
    assert_eq!(log.create_partitions("orders", 3).unwrap().partitions, 3);
    assert_eq!(log.topic_by_id(11).unwrap().name, "orders");
    assert_eq!(log.topics(None).len(), 1);
    assert!(matches!(log.delete_topic("nothing", 0), Err(ControlError::TopicNotFound(_))));
    assert!(log.delete_topic("orders", 0).is_ok());
    assert!(log.topic("orders").is_none());
    assert!(matches!(log.partition_watermarks(&orders(0)), Err(ControlError::PartitionNotFound { partition: 0, .. })));
}

#[test]
fn topics_made_by_the_clock_have_ids_of_their_own() {
    let mut log = LogState::new(config());
    let first = log.create_topic_now("a", 1, config(), None, None).unwrap();
    let second = log.create_topic_now("b", 1, config(), None, None).unwrap();
    assert_ne!(first.id, second.id);
    assert_eq!(log.topic_by_id(second.id).unwrap().name, "b");
}

#[test]
fn batches_are_numbered_one_behind_the_other_and_read_back() {
    let mut log = log();
    let spans = log
        .commit_object(object("one"), vec![batch(1, 10, 5, 0), batch(0, 10, 3, 0), batch(1, 20, 2, 0)])
        .unwrap();
    assert_eq!(bases(&spans), [(0, 4), (0, 2), (5, 6)]);
    let spans = log.commit_object(object("two"), vec![batch(1, 30, 1, 0)]).unwrap();
    assert_eq!(bases(&spans), [(7, 7)]);

    let found = log.fetch(&orders(1), 4, 1_000, FetchIsolation::ReadUncommitted).unwrap();
    assert_eq!(bases(&found.spans), [(0, 4), (5, 6), (7, 7)]);
    assert_eq!((found.log_start_offset, found.last_stable_offset, found.high_watermark), (0, 8, 8));
    assert_eq!(found.spans[2].object_key, "two");
    assert_eq!(found.spans[2].integrity.checksum, Some(vec![7]));

    let some = log.fetch(&orders(1), 5, 49, FetchIsolation::ReadUncommitted).unwrap();
    assert_eq!(bases(&some.spans), [(5, 6)]);
    let large = log.fetch(&orders(1), 7, 1, FetchIsolation::ReadUncommitted).unwrap();
    assert_eq!(bases(&large.spans), [(7, 7)]);
    assert!(log.fetch(&orders(1), 8, 1, FetchIsolation::ReadUncommitted).unwrap().spans.is_empty());
    assert!(matches!(
        log.fetch(&orders(1), 9, 1, FetchIsolation::ReadUncommitted),
        Err(ControlError::OffsetOutOfRange { offset: 9, start: 0, end: 8, .. })
    ));
}

#[test]
fn refused_objects_change_nothing() {
    let mut log = log();
    log.commit_object(object("one"), vec![batch(0, 10, 3, 0)]).unwrap();
    assert!(matches!(log.commit_object(object("one"), vec![batch(0, 10, 3, 0)]), Err(ControlError::InvalidRequest(_))));
    assert!(matches!(log.commit_object(object("two"), Vec::new()), Err(ControlError::InvalidRequest(_))));
    assert!(matches!(
        log.commit_object(object("two"), vec![batch(0, 10, 3, 0), batch(0, 10, 0, 0)]),
        Err(ControlError::InvalidRequest(_))
    ));
    assert!(matches!(
        log.commit_object(object("two"), vec![batch(0, 10, 3, 0), batch(9, 10, 1, 0)]),
        Err(ControlError::PartitionNotFound { partition: 9, .. })
    ));
    assert_eq!(log.partition_watermarks(&orders(0)).unwrap().high_watermark, 3);
    assert!(!log.object_committed("two"));
}

fn from(producer: ProducerSession, first: i32, last: i32) -> Option<ProducerBatch> {
    Some(ProducerBatch {
        producer_id: producer.producer_id,
        producer_epoch: producer.producer_epoch,
        first_sequence: first,
        last_sequence: last,
    })
}

#[test]
fn repeated_batches_are_answered_alike_and_stored_once() {
    let mut log = log();
    let producer = log.init_producer_with_options(None, 0, None, false, false, 0).unwrap().producer;
    assert_eq!((producer.producer_id, producer.producer_epoch), (1, 0));
    let sent = BatchDraft { producer: from(producer, 0, 2), ..batch(0, 10, 3, 0) };
    let first = log.commit_object(object("one"), vec![sent.clone()]).unwrap();
    let again = log.commit_object(object("two"), vec![sent]).unwrap();
    assert_eq!(first, again);
    assert_eq!(log.partition_watermarks(&orders(0)).unwrap().high_watermark, 3);
    assert!(!log.object_committed("two"));

    let ahead = BatchDraft { producer: from(producer, 9, 9), ..batch(0, 10, 1, 0) };
    assert!(matches!(
        log.commit_object(object("three"), vec![ahead]),
        Err(ControlError::OutOfOrderSequence { expected: 3, actual: 9, .. })
    ));
    let stale = ProducerSession { producer_epoch: -1, ..producer };
    let fenced = BatchDraft { producer: from(stale, 3, 3), ..batch(0, 10, 1, 0) };
    assert!(matches!(
        log.commit_object(object("three"), vec![fenced]),
        Err(ControlError::ProducerFenced { expected_epoch: 0, actual_epoch: -1, .. })
    ));
    let stranger = BatchDraft { producer: from(ProducerSession { producer_id: 77, producer_epoch: 0 }, 0, 0), ..batch(0, 10, 1, 0) };
    assert!(matches!(log.commit_object(object("three"), vec![stranger]), Err(ControlError::UnknownProducer(77))));
}

#[test]
fn only_the_last_five_batches_count_as_recent() {
    let mut log = log();
    let producer = log.init_producer_with_options(None, 0, None, false, false, 0).unwrap().producer;
    for i in 0..6 {
        let sent = BatchDraft { producer: from(producer, i, i), ..batch(0, 10, 1, 0) };
        log.commit_object(object(&format!("object-{i}")), vec![sent]).unwrap();
    }
    let second = BatchDraft { producer: from(producer, 1, 1), ..batch(0, 10, 1, 0) };
    assert_eq!(bases(&log.commit_object(object("again"), vec![second]).unwrap()), [(1, 1)]);
    assert!(!log.object_committed("again"));
    assert_eq!(log.partition_watermarks(&orders(0)).unwrap().high_watermark, 6);
    let first = BatchDraft { producer: from(producer, 0, 0), ..batch(0, 10, 1, 0) };
    assert!(matches!(
        log.commit_object(object("again"), vec![first]),
        Err(ControlError::OutOfOrderSequence { expected: 6, actual: 0, .. })
    ));
}

#[test]
fn batches_are_known_again_after_older_records_are_gone() {
    let mut log = log();
    let producer = log.init_producer_with_options(None, 0, None, false, false, 0).unwrap().producer;
    let sent: Vec<BatchDraft> =
        (0..3).map(|i| BatchDraft { producer: from(producer, i, i), ..batch(0, 10, 1, 0) }).collect();
    let mut stored = Vec::new();
    for (i, draft) in sent.iter().enumerate() {
        stored.push(log.commit_object(object(&format!("object-{i}")), vec![draft.clone()]).unwrap());
    }
    assert_eq!(log.delete_records(&orders(0), 1, 0), Ok(1));
    log.commit_object(object("unnumbered"), vec![batch(0, 10, 1, 0)]).unwrap();
    assert_eq!(log.commit_object(object("again"), vec![sent[1].clone()]).unwrap(), stored[1]);
    assert!(!log.object_committed("again"));
    assert!(matches!(
        log.commit_object(object("again"), vec![sent[0].clone()]),
        Err(ControlError::OutOfOrderSequence { expected: 3, actual: 0, .. })
    ));
}

#[test]
fn sequence_numbers_wrap_round() {
    assert_eq!(increment_producer_sequence(5, 1), 6);
    assert_eq!(increment_producer_sequence(i32::MAX, 1), 0);
    assert_eq!(increment_producer_sequence(i32::MAX - 1, 3), 1);
    let producer = ProducerBatch { producer_id: 1, producer_epoch: 0, first_sequence: 0, last_sequence: 0 };
    assert_eq!(validate_sequence(&orders(0), producer, Some(i32::MAX), false), Ok(()));
    let late = ProducerBatch { first_sequence: 4, last_sequence: 4, ..producer };
    assert_eq!(validate_sequence(&orders(0), late, None, false), Ok(()));
    assert!(matches!(
        validate_sequence(&orders(0), late, None, true),
        Err(ControlError::OutOfOrderSequence { expected: 0, actual: 4, .. })
    ));
}

#[test]
fn deleted_records_are_out_of_reach_for_good() {
    let mut log = log();
    log.commit_object(object("one"), vec![batch(0, 10, 5, 0), batch(0, 10, 5, 0)]).unwrap();
    assert_eq!(log.delete_records(&orders(0), 7, 100), Ok(7));
    assert!(matches!(
        log.fetch(&orders(0), 6, 1_000, FetchIsolation::ReadUncommitted),
        Err(ControlError::OffsetOutOfRange { start: 7, end: 10, .. })
    ));
    let found = log.fetch(&orders(0), 7, 1_000, FetchIsolation::ReadUncommitted).unwrap();
    assert_eq!(bases(&found.spans), [(5, 9)]);
    assert_eq!(log.delete_records(&orders(0), 3, 100), Ok(7));
    assert!(matches!(log.delete_records(&orders(0), 11, 100), Err(ControlError::OffsetOutOfRange { offset: 11, .. })));
    assert_eq!(log.delete_records(&orders(0), -1, 100), Ok(10));
    assert!(log.fetch(&orders(0), 10, 1_000, FetchIsolation::ReadUncommitted).unwrap().spans.is_empty());
}

#[test]
fn retention_lets_go_of_old_and_excess_spans() {
    let mut log = log();
    let mut limits = config();
    limits.retention_ms = 1_000;
    log.set_topic_config("orders", limits.clone(), None).unwrap();
    log.commit_object(object("old"), vec![batch(0, 10, 2, 1_000)]).unwrap();
    log.commit_object(object("new"), vec![batch(0, 10, 2, 5_000)]).unwrap();
    let pass = log.apply_retention(5_500, 0);
    assert_eq!(pass.removed_spans, 1);
    assert_eq!(log.partition_watermarks(&orders(0)).unwrap().log_start_offset, 2);
    assert!(pass.deletable_objects.is_empty());
    let pass = log.apply_retention(6_500, 0);
    assert_eq!(pass.removed_spans, 1);
    assert_eq!(pass.deletable_objects, ["old"]);
    assert!(log.complete_object_deletion("old"));
    assert!(!log.complete_object_deletion("old"));
    assert!(!log.object_committed("old"));

    limits.retention_ms = -1;
    limits.retention_bytes = 25;
    log.set_topic_config("orders", limits, None).unwrap();
    log.commit_object(object("bytes"), vec![batch(1, 10, 1, 0), batch(1, 10, 1, 0), batch(1, 10, 1, 0)]).unwrap();
    assert_eq!(log.apply_retention(7_000, 0).removed_spans, 1);
    assert_eq!(log.partition_size(&orders(1)), Ok(20));
    assert!(!log.complete_object_deletion("bytes"));
}

#[test]
fn announced_objects_that_never_come_are_claimed() {
    let mut log = log();
    assert_eq!(log.stage_object(object("late"), 100), Ok(()));
    assert_eq!(log.stage_object(object("lost"), 200), Ok(()));
    assert!(matches!(log.stage_object(object("lost"), 300), Err(ControlError::InvalidRequest(_))));
    log.commit_object(object("late"), vec![batch(0, 10, 1, 0)]).unwrap();
    assert!(!log.object_staged("late"));
    assert!(log.claim_stale_objects(199, 10, 400).is_empty());
    assert_eq!(log.claim_stale_objects(200, 10, 400), ["lost"]);
    assert!(matches!(log.commit_object(object("lost"), vec![batch(0, 10, 1, 0)]), Err(ControlError::InvalidRequest(_))));
    assert!(log.complete_stale_object_deletion("lost"));
    assert_eq!(log.stage_object(object("lost"), 500), Ok(()));
}

#[test]
fn offsets_are_found_by_time() {
    let mut log = log();
    log.commit_object(object("one"), vec![batch(0, 10, 2, 1_000), batch(0, 10, 2, 2_000)]).unwrap();
    assert_eq!(log.list_offset(&orders(0), -2), Ok(0));
    assert_eq!(log.list_offset(&orders(0), -1), Ok(4));
    assert_eq!(log.list_offset(&orders(0), 1_500), Ok(2));
    assert_eq!(log.list_offset(&orders(0), 9_000), Ok(4));
    assert_eq!(log.partition_size(&orders(0)), Ok(20));
}

#[test]
fn the_clock_moves_on() {
    let first = fresh::now();
    assert!(first.millis() > 1_700_000_000_000);
    assert!(fresh::now().nanos >= first.nanos);
}

#[test]
fn a_fetch_keeps_to_its_bytes() {
    let mut log = log();
    log.commit_object(object("one"), vec![batch(0, 10, 1, 0), batch(0, 10, 1, 0), batch(0, u64::MAX, 1, 0), batch(0, 1, 1, 0)]).unwrap();
    let read = |offset: i64, max_bytes: usize| bases(&log.fetch(&orders(0), offset, max_bytes, FetchIsolation::ReadUncommitted).unwrap().spans);
    assert_eq!(read(0, 0), [(0, 0)]);
    assert_eq!(read(0, 19), [(0, 0)]);
    assert_eq!(read(0, 20), [(0, 0), (1, 1)]);
    assert_eq!(read(0, usize::MAX), [(0, 0), (1, 1)]);
    assert_eq!(read(2, usize::MAX), [(2, 2)]);
    assert_eq!(read(3, 0), [(3, 3)]);
}

#[test]
fn sizes_are_told_against_their_limits() {
    let mut log = log();
    let mut limits = config();
    limits.retention_bytes = 50;
    log.set_topic_config("orders", limits, None).unwrap();
    assert_eq!(log.topic_config("orders").unwrap().retention_bytes, 50);
    assert!(matches!(log.topic_config("gone"), Err(ControlError::TopicNotFound(_))));
    log.commit_object(object("one"), vec![batch(0, 10, 1, 0), batch(1, 20, 1, 0)]).unwrap();
    let sizes: Vec<(i32, i64, i64)> = log
        .partition_retention_sizes(10)
        .iter()
        .map(|size| (size.partition.partition, size.size_bytes, size.percent()))
        .collect();
    assert_eq!(sizes, [(0, 10, 20), (1, 20, 40)]);
    assert_eq!(log.partition_retention_sizes(1).len(), 1);
}

#[test]
fn topic_names_are_judged_before_topics_are_made() {
    let log = log();
    assert_eq!(log.validate_topic_creation("fresh", None, None), Ok(()));
    assert!(matches!(log.validate_topic_creation("orders", None, None), Err(ControlError::TopicAlreadyExists(_))));
    let refusal = ControlError::InvalidRequest("no".to_owned());
    assert_eq!(log.validate_topic_creation("fresh", Some(refusal.clone()), None), Err(refusal.clone()));
    assert_eq!(log.validate_topic_creation("fresh", None, Some(refusal.clone())), Err(refusal));
}
