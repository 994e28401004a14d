//! How partitions are given to the members of a consumer group.

use control::consumer_assignor::{assign_with_regex_topics, validate_assignor, RANGE_ASSIGNOR};
use control::consumer_types::{ConsumerGroupState, ConsumerMemberState, ConsumerTopicAssignment};
use control::fresh;
use control::sorted_map::SortedMap;
use control::{ControlError, TopicInfo};

fn seated<const N: usize>(members: [(String, ConsumerMemberState); N]) -> SortedMap<String, ConsumerMemberState> {
    let mut map = SortedMap::new();
    for (id, member) in members {
        map.insert(id, member);
    }
    map
}

fn given<'a>(assignments: &'a SortedMap<String, Vec<ConsumerTopicAssignment>>, id: &str) -> &'a Vec<ConsumerTopicAssignment> {
    assignments.get(&id.to_owned()).expect("the member is assigned")
}


fn member(id: &str, topics: &[&str]) -> (String, ConsumerMemberState) {
    (
        id.to_owned(),
        ConsumerMemberState {
            member_id: id.to_owned(),
            subscribed_topic_names: topics.iter().map(|topic| (*topic).to_owned()).collect(),
            ..ConsumerMemberState::new(fresh::now())
        },
    )
}

fn topic(name: &str, partitions: i32) -> TopicInfo {
    TopicInfo {
        id: fresh::fresh_id(),
        name: name.to_owned(),
        partitions,
    }
}

#[test]
fn uniform_balances_across_topics() {
    let topics = [topic("a", 3), topic("b", 3)];
    let group = ConsumerGroupState {
        members: seated([
            member("member-a", &["a", "b"]),
            member("member-b", &["a", "b"]),
        ]),
        ..ConsumerGroupState::default()
    };
    let assignments = assign_with_regex_topics(&group, &topics, None).unwrap();
    let counts = assignments
        .keys()
        .iter()
        .map(|id| {
            assignments
                .get(id)
                .unwrap()
                .iter()
                .map(|topic| topic.partitions.len())
                .sum::<usize>()
        })
        .collect::<Vec<_>>();
    assert_eq!(counts, [3, 3]);
}

#[test]
fn range_keeps_per_topic_partitions_contiguous() {
    let topic = topic("orders", 5);
    let group = ConsumerGroupState {
        assignor_name: RANGE_ASSIGNOR.to_owned(),
        members: seated([
            member("member-a", &["orders"]),
            member("member-b", &["orders"]),
        ]),
        ..ConsumerGroupState::default()
    };
    let assignments =
        assign_with_regex_topics(&group, std::slice::from_ref(&topic), None).unwrap();
    assert_eq!(given(&assignments, "member-a")[0].partitions, [0, 1, 2]);
    assert_eq!(given(&assignments, "member-b")[0].partitions, [3, 4]);
}

#[test]
fn regex_subscription_uses_full_topic_name() {
    let topics = [topic("orders-us", 1), topic("not-orders-us-copy", 1)];
    let mut subscribed = member("member-a", &[]).1;
    subscribed.subscribed_topic_regex = Some("orders-.*".to_owned());
    let group = ConsumerGroupState {
        members: seated([("member-a".to_owned(), subscribed)]),
        ..ConsumerGroupState::default()
    };
    let assignments = assign_with_regex_topics(&group, &topics, None).unwrap();
    assert_eq!(given(&assignments, "member-a").len(), 1);
    assert_eq!(given(&assignments, "member-a")[0].topic_name, "orders-us");
}

#[test]
fn range_gives_the_first_members_one_more() {
    let topic = topic("orders", 7);
    let group = ConsumerGroupState {
        assignor_name: RANGE_ASSIGNOR.to_owned(),
        members: seated([
            member("a", &["orders"]),
            member("b", &["orders"]),
            member("c", &["orders"]),
            member("d", &["payments"]),
        ]),
        ..ConsumerGroupState::default()
    };
    let assignments = assign_with_regex_topics(&group, std::slice::from_ref(&topic), None).unwrap();
    assert_eq!(given(&assignments, "a")[0].partitions, [0, 1, 2]);
    assert_eq!(given(&assignments, "b")[0].partitions, [3, 4]);
    assert_eq!(given(&assignments, "c")[0].partitions, [5, 6]);
    assert!(given(&assignments, "d").is_empty());
}

#[test]
fn uniform_gives_to_whoever_has_least() {
    let topics = [topic("a", 3), topic("b", 2)];
    let group = ConsumerGroupState {
        members: seated([member("one", &["a", "b"]), member("two", &["b"])]),
        ..ConsumerGroupState::default()
    };
    let assignments = assign_with_regex_topics(&group, &topics, None).unwrap();
    assert_eq!(given(&assignments, "one").len(), 1);
    assert_eq!(given(&assignments, "one")[0].partitions, [0, 1, 2]);
    assert_eq!(given(&assignments, "two")[0].topic_name, "b");
    assert_eq!(given(&assignments, "two")[0].partitions, [0, 1]);
}

#[test]
fn unknown_assignors_are_refused() {
    assert_eq!(validate_assignor("uniform"), Ok(()));
    assert_eq!(validate_assignor("range"), Ok(()));
    assert!(matches!(validate_assignor("sticky"), Err(ControlError::UnsupportedConsumerAssignor(name)) if name == "sticky"));
}

#[test]
fn broken_patterns_are_refused() {
    let topics = [topic("orders", 1)];
    let mut subscribed = member("member-a", &[]).1;
    subscribed.subscribed_topic_regex = Some("orders-(".to_owned());
    let group = ConsumerGroupState { members: seated([("member-a".to_owned(), subscribed)]), ..ConsumerGroupState::default() };
    assert!(matches!(assign_with_regex_topics(&group, &topics, None), Err(ControlError::InvalidRequest(text)) if text.starts_with("invalid subscribed topic regex for member-a: ")));
}
