//! Operations that read the clock and draw ids themselves.

use control::classic_join::JoinRequest;
use control::consumer_types::{AssignmentProtocol, ConsumerGroupHeartbeat, GroupAssignmentCompletion, GroupAssignmentTask};
use control::fresh;
use control::groups::{GroupAssignment, GroupMemberIdentity};
use control::log_types::{ObjectRef, OffsetCommit, ProducerSession, TopicConfig, TransactionFilter};
use control::store::Store;
use control::{ControlError, PartitionKey};

fn config() -> TopicConfig {
    TopicConfig {
        delete_records: true,
        compact_records: false,
        retention_ms: -1,
        retention_bytes: -1,
        file_delete_delay_ms: 1_000,
        delete_retention_ms: 86_400_000,
        min_compaction_lag_ms: 0,
        max_compaction_lag_ms: i64::MAX,
    }
}

fn orders() -> PartitionKey {
    PartitionKey::new("orders", 0)
}

fn store() -> Store {
    let mut store = Store::new(config());
    store.log.create_topic_now("orders", 1, config(), None, None).unwrap();
    store
}

fn commit(offset: i64) -> OffsetCommit {
    OffsetCommit { partition: orders(), offset, leader_epoch: -1, metadata: None, retention_time_ms: None }
}

fn join(member: &str) -> JoinRequest {
    JoinRequest {
        group_id: "readers".to_owned(),
        requested_member_id: member.to_owned(),
        group_instance_id: None,
        protocol_type: "consumer".to_owned(),
        protocols: vec![("range".to_owned(), vec![1])],
        client_id: "client".to_owned(),
        client_host: "127.0.0.1".to_owned(),
        subscribed_topics: vec!["orders".to_owned()],
        session_timeout_ms: 10_000,
        rebalance_timeout_ms: 10_000,
        initial_rebalance_delay_ms: 0,
        max_size: i32::MAX,
        api_version: 3,
    }
}

fn heartbeat(epoch: i32) -> ConsumerGroupHeartbeat {
    ConsumerGroupHeartbeat {
        group_id: "consumers".to_owned(),
        member_id: "member-a".to_owned(),
        member_epoch: epoch,
        instance_id: None,
        rack_id: None,
        rebalance_timeout_ms: 300_000,
        subscribed_topic_names: Some(vec!["orders".to_owned()]),
        subscribed_topic_regex: None,
        server_assignor: None,
        configured_assignors: vec!["uniform".to_owned()],
        owned_partitions: Some(Vec::new()),
        client_id: "client".to_owned(),
        client_host: "127.0.0.1".to_owned(),
        heartbeat_interval_ms: 5_000,
        session_timeout_ms: 45_000,
        regex_refresh_interval_ms: 600_000,
        assignment_interval_ms: 0,
        max_size: i32::MAX,
    }
}

fn any_transaction() -> TransactionFilter {
    TransactionFilter { state_filters: vec![], producer_id_filters: vec![], min_duration_ms: None, transactional_id_pattern: None }
}

#[test]
fn topics_get_ids_of_their_own() {
    let mut store = store();
    let other = store.log.create_topic_now("other", 1, config(), None, None).unwrap();
    assert_ne!(other.id, store.log.topic("orders").unwrap().id);
    assert_eq!(store.log.delete_topic_by_id_now(other.id).unwrap().name, "other");
    assert!(store.log.delete_topic_by_id_now(other.id).is_none());
    assert_eq!(store.log.delete_topic_now("orders"), Ok(()));
    assert_eq!(store.log.delete_topic_now("orders"), Err(ControlError::TopicNotFound("orders".to_owned())));
}

#[test]
fn members_join_and_leave_at_the_time() {
    let mut store = store();
    let mut patient = join("");
    patient.group_id = "patient".to_owned();
    patient.initial_rebalance_delay_ms = 60_000;
    let waiting = store.begin_join_group_now(&patient).unwrap();
    let rebalance = waiting.pending_rebalance.unwrap();
    let polled = store.classic.poll_join_group_now("patient", &waiting.member_id, None, rebalance).unwrap();
    assert_eq!((polled.pending_rebalance, polled.member_id), (Some(rebalance), waiting.member_id));

    let joined = store.begin_join_group_now(&join("")).unwrap();
    assert_eq!((joined.generation_id, &joined.leader), (1, &joined.member_id));
    let given = GroupAssignment { member_id: joined.member_id.clone(), assignment: vec![7] };
    assert_eq!(store.classic.sync_group_now("readers", 1, &joined.member_id, None, vec![given]), Ok(vec![7]));
    assert_eq!(store.classic.heartbeat_group_now("readers", 1, &joined.member_id, None), Ok(()));
    assert_eq!(store.validate_group_member_now("readers", &joined.member_id, None, 1, None), Ok(()));
    assert_eq!(store.commit_member_offsets_now("readers", &joined.member_id, None, 1, 9, vec![commit(0)], None), Ok(vec![true]));
    let left = store
        .classic
        .leave_group_now("readers", &[GroupMemberIdentity { member_id: joined.member_id.clone(), group_instance_id: None }])
        .unwrap();
    assert_eq!(left[0].error, None);
    assert!(matches!(
        store.classic.heartbeat_group_now("readers", 1, &joined.member_id, None),
        Err(ControlError::IllegalGeneration { .. })
    ));
}

#[test]
fn consumers_get_partitions_at_the_time() {
    let mut store = store();
    let told = store.consumer_group_heartbeat_now(heartbeat(0)).unwrap();
    assert_eq!(told.member_epoch, 2);
    assert_eq!(told.assignment.unwrap()[0].partitions, vec![0]);
    assert!(store.consumer_group_heartbeat_deferred_now(heartbeat(2)).is_ok());
    let task = GroupAssignmentTask {
        protocol: AssignmentProtocol::Consumer,
        group_id: "consumers".to_owned(),
        group_epoch: 0,
        assignment_epoch: 0,
        assignment_timestamp: None,
    };
    assert_eq!(store.complete_group_assignment_now(&task), Ok(GroupAssignmentCompletion::Stale));
}

#[test]
fn objects_are_claimed_by_their_age() {
    let mut store = store();
    store.log.stage_object_now(ObjectRef { key: "object".to_owned(), size: 1 }).unwrap();
    assert!(store.log.claim_stale_objects_now(1_000, 10).is_empty());
    let later = fresh::now().millis() + 1_000;
    assert_eq!(store.log.claim_stale_objects_now(later, 10), vec!["object".to_owned()]);
    assert_eq!(store.log.delete_records_now(&orders(), -1), Ok(0));
    assert!(matches!(store.log.delete_records_now(&orders(), 5), Err(ControlError::OffsetOutOfRange { .. })));
}

#[test]
fn transactions_run_at_the_time() {
    let mut store = store();
    let begun = store.log.init_producer_with_options_now(Some("tx"), 60_000, None, false, false).unwrap();
    let producer = begun.producer;
    assert_eq!(store.log.add_partitions_now("tx", producer, &[orders()], false), Ok(()));
    assert_eq!(store.log.add_offsets_to_transaction_now("tx", producer, "readers"), Ok(()));
    assert_eq!(store.log.commit_transaction_offsets_now("tx", producer, "readers", false, vec![commit(3)]), Ok(()));
    assert_eq!(
        store.commit_transaction_member_offsets_now("tx", producer, "readers", "", None, -1, false, vec![commit(4)], None),
        Ok(())
    );
    assert_eq!(store.log.list_transactions_now(&any_transaction()).unwrap().len(), 1);
    assert_eq!(store.log.abort_expired_transactions_now(), 0);
    assert_eq!(store.log.end_transaction_now("tx", producer, true), Ok(()));
    assert_eq!(store.log.fetch_offsets("readers", &[orders()]).unwrap().get(&orders()).unwrap().offset, 4);
    assert_eq!(store.log.add_partitions_now("tx", producer, &[orders()], false), Ok(()));
    let next = store.log.end_transaction_with_epoch_bump_now("tx", producer, false).unwrap();
    assert_eq!(next, ProducerSession { producer_id: producer.producer_id, producer_epoch: producer.producer_epoch + 1 });
    assert!(store.log.write_transaction_marker_now(producer, &[orders()], true, 0, 1).is_err());
    assert_eq!(store.log.commit_offsets_now("readers", vec![commit(9)]), Ok(()));
}
