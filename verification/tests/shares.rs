//! Share groups and the starts from which they read.

use control::log_types::{BatchDraft, ObjectRef, TopicConfig};
use control::sorted_map::SortedMap;
use control::store::{ShareGroup, ShareMember, ShareTopicAssignment, Store, StreamsGroup};
use control::{ControlError, PartitionKey};

fn config() -> TopicConfig {
    TopicConfig {
        delete_records: true,
        compact_records: false,
        retention_ms: -1,
        retention_bytes: -1,
        file_delete_delay_ms: 1_000,
        delete_retention_ms: 86_400_000,
        min_compaction_lag_ms: 0,
        max_compaction_lag_ms: i64::MAX,
    }
}

fn orders(partition: i32) -> PartitionKey {
    PartitionKey::new("orders", partition)
}

/// A store with a topic of two partitions, ten records in the first, and a share group with a member
/// that reads the first.
fn store() -> Store {
    let mut store = Store::new(config());
    store.log.create_topic("orders", 2, None, None, 11).unwrap();
    let object = ObjectRef { key: "object".to_owned(), size: 100 };
    store.log.stage_object(object.clone(), 1).unwrap();
    let batch = BatchDraft {
        partition: orders(0),
        byte_start: 0,
        byte_end: 100,
        record_count: 10,
        timestamp_ms: 1,
        checksum: None,
        producer: None,
        transactional_id: None,
        verify_transaction_partition: true,
    };
    store.log.commit_object(object, vec![batch]).unwrap();
    store.share_groups.insert("share".to_owned(), ShareGroup { members: readers() });
    store
}

fn readers() -> SortedMap<String, ShareMember> {
    let mut members = SortedMap::new();
    members.insert("reader".to_owned(), ShareMember { assignment: vec![ShareTopicAssignment { topic_id: 11, partitions: vec![0] }] });
    members
}

#[test]
fn members_read_what_they_are_assigned() {
    let store = store();
    let assigned = store.share_member_partitions("share", "reader").unwrap();
    assert_eq!((assigned.len(), assigned.contains_key(&(11, 0))), (1, true));
    assert_eq!(store.check_share_assignment("share", "reader", 11, 0), Ok(()));
    assert_eq!(
        store.check_share_assignment("share", "reader", 11, 1),
        Err(ControlError::InvalidRequest("share partition is not assigned to the member".to_owned()))
    );
    assert_eq!(store.check_share_assignment("other", "reader", 11, 0), Err(ControlError::GroupNotFound("other".to_owned())));
    assert_eq!(
        store.check_share_assignment("share", "stranger", 11, 0),
        Err(ControlError::GroupMemberNotFound { group: "share".to_owned(), member: "stranger".to_owned() })
    );
    assert_eq!(store.share_partition_bounds("share", "reader", 11, 0), Ok((0, 10)));
}

#[test]
fn state_keys_name_partitions() {
    let store = store();
    assert_eq!(store.validate_share_state_key(11, 1, None), Ok(()));
    assert_eq!(
        store.validate_share_state_key(11, 2, None),
        Err(ControlError::PartitionNotFound { topic: "orders".to_owned(), partition: 2 })
    );
    assert_eq!(
        store.validate_share_state_key(12, 0, None),
        Err(ControlError::TopicNotFound("00000000-0000-0000-0000-00000000000c".to_owned()))
    );
    let refusal = ControlError::InvalidRequest("no group".to_owned());
    assert_eq!(store.validate_share_state_key(11, 1, Some(refusal.clone())), Err(refusal));
}

#[test]
fn starts_lie_within_the_log() {
    let mut store = store();
    store.log.delete_records(&orders(0), 4, 1).unwrap();
    let told = store.describe_share_offset(&orders(0), Some(2), 3).unwrap();
    assert_eq!((told.start_offset, told.high_watermark, told.topic_id, told.delivery_complete_count), (4, 10, 11, 3));
    assert_eq!(store.describe_share_offset(&orders(0), Some(7), 0).unwrap().start_offset, 7);
    let nothing = store.describe_share_offset(&orders(0), None, 3).unwrap();
    assert_eq!((nothing.start_offset, nothing.delivery_complete_count), (-1, 0));
    assert_eq!(store.share_delivery_range(&orders(0), Some(2)), Some((4, 10)));
    assert_eq!(store.share_delivery_range(&orders(0), None), None);
    assert_eq!(store.share_delivery_range(&orders(5), Some(2)), None);
    assert_eq!(
        store.describe_share_offset(&orders(5), None, 0),
        Err(ControlError::PartitionNotFound { topic: "orders".to_owned(), partition: 5 })
    );
    assert_eq!(store.share_offset_partitions("share", None, &vec![(11, 1), (99, 0)]), Ok(vec![orders(1)]));
    assert_eq!(store.share_offset_partitions("share", Some(&[orders(0)]), &vec![(11, 1)]), Ok(vec![orders(0)]));
    assert_eq!(store.share_offset_partitions("other", None, &vec![]), Err(ControlError::GroupNotFound("other".to_owned())));
}

#[test]
fn starts_move_only_in_empty_groups() {
    let mut store = store();
    let wanted = vec![orders(0), orders(2), PartitionKey::new("nothing", 0)];
    assert_eq!(
        store.alter_share_group_offsets("share", &wanted, readers(), None),
        Err(ControlError::NonEmptyGroup("share".to_owned()))
    );
    let results = store.alter_share_group_offsets("fresh", &wanted, SortedMap::new(), None).unwrap();
    let moved: Vec<(Option<u128>, bool)> = results.iter().map(|result| (result.topic_id, result.updated)).collect();
    assert_eq!(moved, vec![(Some(11), true), (Some(11), false), (None, false)]);
    assert!(store.share_groups.contains_key(&"fresh".to_owned()));

    let names = vec!["orders".to_owned(), "nothing".to_owned()];
    assert_eq!(
        store.share_topics_to_forget("fresh", &names, SortedMap::new(), None),
        Ok(vec![("orders".to_owned(), Some(11)), ("nothing".to_owned(), None)])
    );
    assert_eq!(
        store.share_topics_to_forget("share", &names, readers(), None),
        Err(ControlError::NonEmptyGroup("share".to_owned()))
    );
    assert_eq!(
        store.share_topics_to_forget("other", &names, SortedMap::new(), None),
        Err(ControlError::GroupNotFound("other".to_owned()))
    );
}

#[test]
fn members_whose_sessions_are_over_hold_nothing_up() {
    let mut first = store();
    assert_eq!(first.alter_share_group_offsets("share", &vec![orders(0)], SortedMap::new(), None).unwrap().len(), 1);
    assert!(first.share_groups.get(&"share".to_owned()).unwrap().members.is_empty());
    let mut second = store();
    assert_eq!(
        second.share_topics_to_forget("share", &vec!["orders".to_owned()], SortedMap::new(), None),
        Ok(vec![("orders".to_owned(), Some(11))])
    );
    assert!(second.share_groups.get(&"share".to_owned()).unwrap().members.is_empty());
}

#[test]
fn kinds_of_groups_keep_their_ids() {
    let mut store = store();
    store.streams_groups.insert("streams".to_owned(), StreamsGroup { members: SortedMap::new(), subtopologies: vec![] });
    assert_eq!(store.enter_share_group("streams"), Err(ControlError::GroupProtocolMismatch("streams".to_owned())));
    assert_eq!(store.check_streams_group("share"), Err(ControlError::GroupProtocolMismatch("share".to_owned())));
    assert_eq!(store.check_streams_group("streams"), Ok(()));
    assert_eq!(store.enter_share_group("share"), Ok(()));
}
