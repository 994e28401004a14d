//! Groups of all kinds, and the offsets that they store.

use control::classic_join::JoinRequest;
use control::consumer_types::ConsumerGroupHeartbeat;
use control::log_types::{BatchDraft, ObjectRef, OffsetCommit, TopicConfig};
use control::offsets::offset_expire_timestamp;
use control::sorted_map::SortedMap;
use control::store::{Store, StreamsCheck, StreamsGroup, StreamsMember};
use control::{ControlError, PartitionKey, Timestamp};

fn config() -> TopicConfig {
    TopicConfig {
        delete_records: true,
        compact_records: false,
        retention_ms: -1,
        retention_bytes: -1,
        file_delete_delay_ms: 1_000,
        delete_retention_ms: 86_400_000,
        min_compaction_lag_ms: 0,
        max_compaction_lag_ms: i64::MAX,
    }
}

fn at(millis: i64) -> Timestamp {
    Timestamp { nanos: millis as i128 * 1_000_000 }
}

fn orders(partition: i32) -> PartitionKey {
    PartitionKey::new("orders", partition)
}

fn store() -> Store {
    let mut store = Store::new(config());
    store.log.create_topic("orders", 2, None, None, 11).unwrap();
    store
}

fn commit(partition: i32, offset: i64) -> OffsetCommit {
    OffsetCommit { partition: orders(partition), offset, leader_epoch: -1, metadata: Some("note".to_owned()), retention_time_ms: None }
}

fn join(group: &str, topics: &[&str]) -> JoinRequest {
    JoinRequest {
        group_id: group.to_owned(),
        requested_member_id: String::new(),
        group_instance_id: None,
        protocol_type: "consumer".to_owned(),
        protocols: vec![("range".to_owned(), vec![1])],
        client_id: "client".to_owned(),
        client_host: "127.0.0.1".to_owned(),
        subscribed_topics: topics.iter().map(|topic| (*topic).to_owned()).collect(),
        session_timeout_ms: 10_000,
        rebalance_timeout_ms: 10_000,
        initial_rebalance_delay_ms: 0,
        max_size: i32::MAX,
        api_version: 3,
    }
}

fn heartbeat(group: &str, epoch: i32) -> ConsumerGroupHeartbeat {
    ConsumerGroupHeartbeat {
        group_id: group.to_owned(),
        member_id: "member-a".to_owned(),
        member_epoch: epoch,
        instance_id: None,
        rack_id: None,
        rebalance_timeout_ms: 300_000,
        subscribed_topic_names: Some(vec!["orders".to_owned()]),
        subscribed_topic_regex: None,
        server_assignor: None,
        configured_assignors: vec!["uniform".to_owned()],
        owned_partitions: Some(Vec::new()),
        client_id: "client".to_owned(),
        client_host: "127.0.0.1".to_owned(),
        heartbeat_interval_ms: 5_000,
        session_timeout_ms: 45_000,
        regex_refresh_interval_ms: 600_000,
        assignment_interval_ms: 0,
        max_size: i32::MAX,
    }
}

#[test]
fn an_id_names_a_group_of_one_kind() {
    let mut store = store();
    store.join_group(&join("readers", &["orders"]), at(0), "x").unwrap();
    assert!(matches!(store.consumer_group_heartbeat(heartbeat("readers", 0), at(1), "x"), Err(ControlError::GroupProtocolMismatch(_))));
    store.consumer_group_heartbeat(heartbeat("readers", 0), at(10_001), "x").unwrap();
    assert!(matches!(store.join_group(&join("readers", &["orders"]), at(10_002), "x"), Err(ControlError::GroupProtocolMismatch(_))));
    let mut none: SortedMap<String, String> = SortedMap::new();
    none.clear();
    let listed = store.list_groups(&none, &none);
    assert_eq!(listed.len(), 1);
    assert_eq!((listed[0].group_type.as_str(), listed[0].protocol_type.as_str()), ("Consumer", "consumer"));
    assert_eq!(store.enter_share_group("readers"), Err(ControlError::GroupProtocolMismatch("readers".to_owned())));
}

#[test]
fn stored_offsets_are_read_back() {
    let mut store = store();
    assert_eq!(store.log.commit_offsets("readers", vec![commit(0, 3), commit(1, 4), commit(0, 5)], 100), Ok(()));
    let found = store.log.fetch_offsets("readers", &[orders(0), orders(1)]).unwrap();
    assert_eq!(found.len(), 2);
    let first = found.get(&orders(0)).unwrap();
    assert_eq!((first.offset, first.commit_timestamp_ms, first.expire_timestamp_ms), (5, 100, None));
    assert_eq!(first.metadata.as_deref(), Some("note"));
    assert!(store.log.fetch_offsets("others", &[orders(0)]).unwrap().is_empty());
    let nowhere = PartitionKey::new("gone", 0);
    assert!(matches!(store.log.fetch_offsets("readers", &[nowhere]), Err(ControlError::PartitionNotFound { .. })));
    assert!(matches!(store.log.commit_offsets("", vec![commit(0, 3)], 100), Err(ControlError::InvalidRequest(_))));
    assert!(matches!(store.log.commit_offsets("readers", vec![commit(0, -1)], 100), Err(ControlError::InvalidRequest(_))));
    assert!(matches!(store.log.commit_offsets("readers", vec![commit(7, 1)], 100), Err(ControlError::PartitionNotFound { .. })));
    assert_eq!(offset_expire_timestamp(100, Some(5)), Ok(Some(105)));
    assert!(offset_expire_timestamp(100, Some(-1)).is_err());
    assert!(offset_expire_timestamp(100, Some(i64::MAX)).is_err());
}

#[test]
fn lags_are_counted_from_the_end() {
    let mut store = store();
    let batch = BatchDraft {
        partition: orders(0),
        byte_start: 0,
        byte_end: 10,
        record_count: 10,
        timestamp_ms: 0,
        checksum: None,
        producer: None,
        transactional_id: None,
        verify_transaction_partition: false,
    };
    store.log.commit_object(ObjectRef { key: "one".to_owned(), size: 10 }, vec![batch]).unwrap();
    store.log.commit_offsets("readers", vec![commit(0, 3), commit(1, 4)], 100).unwrap();
    let lags = store.log.consumer_lags(10);
    assert_eq!((lags[0].lag, lags[1].lag), (7, 0));
    assert_eq!(store.log.consumer_lags(1).len(), 1);
}

#[test]
fn members_store_offsets_under_their_generation() {
    let mut store = store();
    let joined = store.join_group(&join("readers", &["orders"]), at(0), "x").unwrap();
    let mut attempt = |generation: i32, member: &str| {
        store.commit_member_offsets("readers", member, None, generation, 8, vec![commit(0, 3)], None, at(1))
    };
    assert!(matches!(attempt(joined.generation_id + 1, &joined.member_id), Err(ControlError::IllegalGeneration { .. })));
    assert!(matches!(attempt(joined.generation_id, "stranger"), Err(ControlError::GroupMemberNotFound { .. })));
    assert_eq!(attempt(joined.generation_id, &joined.member_id), Ok(vec![true]));
    let beaten = store.consumer_group_heartbeat(heartbeat("consumers", 0), at(1), "x").unwrap();
    assert!(matches!(
        store.commit_member_offsets("consumers", "member-a", None, beaten.member_epoch, 8, vec![commit(0, 3)], None, at(1)),
        Err(ControlError::UnsupportedVersion(_))
    ));
    assert_eq!(
        store.commit_member_offsets("consumers", "member-a", None, beaten.member_epoch, 9, vec![commit(0, 3)], None, at(1)),
        Ok(vec![true])
    );
}

#[test]
fn streams_groups_judge_their_own_members() {
    let mut store = store();
    let mut members = SortedMap::new();
    members.insert("gone".to_owned(), StreamsMember { last_heartbeat: at(0), session_timeout_ms: 1 });
    store.streams_groups.insert("streams".to_owned(), StreamsGroup { members, subtopologies: vec![] });
    let unknown = ControlError::GroupMemberNotFound { group: "streams".to_owned(), member: "gone".to_owned() };
    let check = StreamsCheck {
        group: StreamsGroup { members: SortedMap::new(), subtopologies: vec![] },
        refusal: Some(unknown.clone()),
    };
    assert_eq!(store.validate_group_member("streams", "gone", None, 1, Some(check), at(5)), Err(unknown));
    assert!(store.streams_groups.get(&"streams".to_owned()).unwrap().members.is_empty());
    assert_eq!(store.validate_group_member("streams", "here", None, 1, None, at(5)), Ok(()));
}

#[test]
fn offsets_of_topics_in_use_are_not_deleted() {
    let mut store = store();
    assert!(matches!(store.delete_offsets("readers", &[orders(0)]), Err(ControlError::GroupNotFound(_))));
    store.log.commit_offsets("readers", vec![commit(0, 3), commit(1, 4)], 100).unwrap();
    store.join_group(&join("readers", &["orders"]), at(0), "x").unwrap();
    assert_eq!(store.delete_offsets("readers", &[orders(0)]).unwrap().keys().len(), 1);
    assert_eq!(store.log.fetch_offsets("readers", &[orders(0)]).unwrap().len(), 1);
    store.log.commit_offsets("idle", vec![commit(0, 3), commit(1, 4)], 100).unwrap();
    assert!(store.delete_offsets("idle", &[orders(0)]).unwrap().is_empty());
    assert_eq!(store.log.fetch_offsets("idle", &[orders(0), orders(1)]).unwrap().keys(), [orders(1)]);
}

#[test]
fn groups_with_members_are_not_deleted() {
    let mut store = store();
    assert!(matches!(store.delete_group("readers"), Err(ControlError::GroupNotFound(_))));
    let joined = store.join_group(&join("readers", &["orders"]), at(0), "x").unwrap();
    store.log.commit_offsets("readers", vec![commit(0, 3)], 100).unwrap();
    assert!(matches!(store.delete_group("readers"), Err(ControlError::NonEmptyGroup(_))));
    let told = store.describe_classic_groups(&["readers".to_owned(), "unknown".to_owned()]);
    assert_eq!(told.len(), 1);
    assert_eq!(told.get(&"readers".to_owned()).unwrap().members[0].member_id, joined.member_id);
    let leaver = control::groups::GroupMemberIdentity { member_id: joined.member_id, group_instance_id: None };
    store.classic.leave_group("readers", &[leaver], at(1)).unwrap();
    assert_eq!(store.delete_group("readers"), Ok(()));
    assert!(store.log.fetch_offsets("readers", &[orders(0)]).unwrap().is_empty());
    assert!(matches!(store.delete_group("readers"), Err(ControlError::GroupNotFound(_))));
}

#[test]
fn offsets_expire_when_nobody_needs_them() {
    let mut store = store();
    store.log.commit_offsets("idle", vec![commit(0, 3)], 1_000).unwrap();
    let mut own = commit(1, 4);
    own.retention_time_ms = Some(9_000);
    store.log.commit_offsets("idle", vec![own], 1_000).unwrap();
    assert!(matches!(store.expire_consumer_offsets(2_000, -1, 10), Err(ControlError::InvalidRequest(_))));
    assert_eq!(store.expire_consumer_offsets(5_999, 5_000, 10), Ok(0));
    assert_eq!(store.expire_consumer_offsets(6_000, 5_000, 0), Ok(0));
    assert_eq!(store.expire_consumer_offsets(6_000, 5_000, 10), Ok(1));
    assert_eq!(store.log.fetch_offsets("idle", &[orders(0), orders(1)]).unwrap().keys(), [orders(1)]);
    assert_eq!(store.expire_consumer_offsets(10_000, 5_000, 10), Ok(1));

    let producer = store.log.init_producer_with_options(Some("tx"), 60_000, None, false, false, 0).unwrap().producer;
    store.log.commit_offsets("held", vec![commit(0, 3)], 1_000).unwrap();
    store.log.commit_transaction_offsets("tx", producer, "held", true, vec![commit(0, 9)], 1, at(1)).unwrap();
    assert_eq!(store.expire_consumer_offsets(90_000, 5_000, 10), Ok(0));
    store.log.end_transaction("tx", producer, false, at(2)).unwrap();
    assert_eq!(store.expire_consumer_offsets(90_000, 5_000, 10), Ok(1));
}

#[test]
fn consumer_groups_are_described() {
    let mut store = store();
    store.consumer_group_heartbeat(heartbeat("readers", 0), at(1), "x").unwrap();
    let described = store.describe_consumer_groups(&["readers".to_owned(), "others".to_owned()]);
    assert_eq!(described.len(), 1);
    let group = described.get(&"readers".to_owned()).unwrap();
    assert_eq!((group.group_epoch, group.members.len()), (2, 1));
    assert_eq!(group.members[0].member_id, "member-a");
}
