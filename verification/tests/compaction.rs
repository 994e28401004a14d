//! Compaction: what is claimed, what is handed in, and what becomes of it.

use control::compaction::{CompactedObject, CompactedSpanDraft, CompactionPlan};
use control::log_types::{BatchDraft, LogState, ObjectRef, ProducerBatch, TopicConfig};
use control::row_rules::check_sources;
use control::sorted_map::SortedMap;
use control::{ControlError, PartitionKey};

fn config() -> TopicConfig {
    TopicConfig {
        delete_records: false,
        compact_records: true,
        retention_ms: -1,
        retention_bytes: -1,
        file_delete_delay_ms: 1_000,
        delete_retention_ms: 86_400_000,
        min_compaction_lag_ms: 100,
        max_compaction_lag_ms: i64::MAX,
    }
}

fn orders() -> PartitionKey {
    PartitionKey::new("orders", 0)
}

fn batch(records: i32, timestamp_ms: i64) -> BatchDraft {
    BatchDraft {
        partition: orders(),
        byte_start: 0,
        byte_end: 10,
        record_count: records,
        timestamp_ms,
        checksum: None,
        producer: None,
        transactional_id: None,
        verify_transaction_partition: false,
    }
}

fn object(key: &str) -> ObjectRef {
    ObjectRef { key: key.to_owned(), size: 100 }
}

fn log() -> LogState {
    let mut log = LogState::new(config());
    log.create_topic("orders", 1, None, None, 11).unwrap();
    log.commit_object(object("one"), vec![batch(5, 1_000)]).unwrap();
    log.commit_object(object("two"), vec![batch(5, 1_000), batch(5, 9_000)]).unwrap();
    log
}

fn reached() -> SortedMap<PartitionKey, ()> {
    let mut set = SortedMap::new();
    set.insert(orders(), ());
    set
}

fn claim(log: &mut LogState) -> CompactionPlan {
    log.claim_compaction(2_000, 500, &reached(), 77).unwrap().expect("there is something to compact")
}

fn draft(source_id: i64, base_offset: i64, last_offset: i64, byte_start: u64) -> CompactedSpanDraft {
    CompactedSpanDraft {
        source_id,
        byte_start,
        byte_end: byte_start + 5,
        base_offset,
        last_offset,
        record_count: 2,
        checksum: vec![9],
        producer: None,
    }
}

fn made(key: &str, spans: Vec<CompactedSpanDraft>) -> Vec<CompactedObject> {
    vec![CompactedObject { object: object(key), spans }]
}

fn bases(log: &LogState) -> Vec<(i64, i64)> {
    let found = log.fetch(&orders(), 0, 1_000, control::log_types::FetchIsolation::ReadUncommitted).unwrap();
    found.spans.iter().map(|span| (span.base_offset, span.last_offset)).collect()
}

#[test]
fn only_spans_old_enough_are_claimed_and_only_once() {
    let mut log = log();
    assert!(matches!(log.claim_compaction(2_000, 0, &reached(), 77), Err(ControlError::InvalidRequest(_))));
    assert!(log.claim_compaction(1_050, 500, &reached(), 77).unwrap().is_none());
    let shares = log.compaction_shares(2_000);
    assert_eq!((shares[0].dirty_bytes, shares[0].total_bytes), (20, 20));
    let plan = claim(&mut log);
    assert_eq!(plan.end_offset, 9);
    assert_eq!(plan.spans.iter().map(|source| source.id).collect::<Vec<_>>(), [0, 5]);
    assert!(log.claim_compaction(2_499, 500, &reached(), 78).unwrap().is_none());
    log.release_compaction(&orders(), 77);
    assert!(log.claim_compaction(2_499, 500, &reached(), 78).unwrap().is_some());
    assert!(log.claim_compaction_now(9_999, 500, &reached()).unwrap().is_some());
}

#[test]
fn replacements_take_the_place_of_their_sources() {
    let mut log = log();
    let plan = claim(&mut log);
    let done = log.commit_compaction(&plan, made("packed", vec![draft(5, 6, 8, 20), draft(0, 1, 4, 0)]), Some(5_000), 3_000);
    assert_eq!(done, Ok(true));
    assert_eq!(bases(&log), [(1, 4), (6, 8), (10, 14)]);
    let marks = log.partition_watermarks(&orders()).unwrap();
    assert_eq!((marks.log_start_offset, marks.high_watermark), (0, 15));
    assert!(log.object_committed("packed"));
    assert_eq!(log.commit_compaction(&plan, made("again", vec![draft(0, 1, 4, 0)]), None, 3_000), Ok(false));
    let pass = log.apply_retention(3_500, 0);
    assert!(pass.deletable_objects.is_empty());
    assert_eq!(log.apply_retention(4_000, 0).deletable_objects, ["one"]);
    assert!(!log.complete_object_deletion("two"));
    assert!(log.complete_object_deletion("one"));
}

#[test]
fn replacements_that_do_not_fit_are_refused() {
    let mut log = log();
    let plan = claim(&mut log);
    let mut refused = |objects: Vec<CompactedObject>| match log.commit_compaction(&plan, objects, None, 3_000) {
        Err(ControlError::InvalidRequest(text)) => text,
        other => panic!("{other:?}"),
    };
    assert_eq!(refused(made("packed", vec![draft(4, 4, 4, 0)])), "compaction source is not in the lease");
    assert_eq!(refused(made("packed", vec![draft(0, 0, 5, 0)])), "compacted span has invalid byte or offset bounds");
    assert_eq!(refused(made("packed", vec![draft(0, 0, 1, 0), draft(0, 2, 3, 10)])), "compacted span has invalid byte or offset bounds");
    assert_eq!(refused(made("packed", vec![draft(0, 0, 1, 0), draft(5, 5, 6, 3)])), "compacted span has invalid byte or offset bounds");
    assert_eq!(refused(made("packed", Vec::new())), "each compacted object must be unique and contain spans");
    assert_eq!(refused(made("one", vec![draft(0, 0, 1, 0)])), "object one is already committed");
    let mut named = draft(0, 0, 1, 0);
    named.producer = Some(ProducerBatch { producer_id: 1, producer_epoch: 0, first_sequence: 0, last_sequence: 1 });
    assert_eq!(refused(made("packed", vec![named])), "compaction changed producer identity");
    assert_eq!(bases(&log), [(0, 4), (5, 9), (10, 14)]);
}

#[test]
fn results_of_an_outdated_log_are_dropped() {
    let mut log = log();
    let plan = claim(&mut log);
    log.delete_records(&orders(), 5, 2_100).unwrap();
    assert_eq!(log.commit_compaction(&plan, made("packed", vec![draft(0, 1, 4, 0)]), None, 3_000), Ok(false));
    assert!(!log.object_committed("packed"));
    assert!(log.claim_compaction(2_101, 500, &reached(), 79).unwrap().is_some());
}

#[test]
fn a_lease_that_passed_to_somebody_else_is_lost() {
    let mut log = log();
    let first = claim(&mut log);
    let second = log.claim_compaction(2_500, 500, &reached(), 78).unwrap().unwrap();
    assert_eq!(second.partition, first.partition);
    let before = bases(&log);
    assert_eq!(log.commit_compaction(&first, made("new", vec![draft(0, 1, 3, 0)]), None, 2_600), Ok(false));
    assert_eq!(bases(&log), before);
    assert_eq!(log.commit_compaction(&second, made("new", vec![draft(0, 1, 3, 0)]), None, 2_600), Ok(true));
}

#[test]
fn plans_stand_while_their_rows_do() {
    let mut log = log();
    let plan = claim(&mut log);
    let mut rows = plan.spans.clone();
    rows.reverse();
    assert!(check_sources(&plan, &rows));
    rows[0].span.timestamp_ms += 1;
    assert!(!check_sources(&plan, &rows));
    rows.remove(0);
    assert!(!check_sources(&plan, &rows));
}
