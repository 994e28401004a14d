//! Consumers that missed an answer, and assignments that are computed later.

use control::consumer_heartbeat::{complete_assignment, heartbeat, heartbeat_deferred};
use control::consumer_types::{
    ConsumerGroupHeartbeat, ConsumerGroupState, ConsumerMemberState, ConsumerOwnedTopicPartitions, ConsumerTopicAssignment,
    GroupAssignmentCompletion,
};
use control::fresh;
use control::sorted_map::Duplicate;
use control::{ControlError, Timestamp, TopicInfo};

fn later(now: Timestamp, millis: i32) -> Timestamp {
    now.plus_millis(millis)
}

fn member_of<'a>(group: &'a ConsumerGroupState, id: &str) -> &'a ConsumerMemberState {
    group.members.get(&id.to_owned()).expect("the member is known")
}

#[test]
fn consumer_previous_epoch_recovers_only_with_owned_assignment_subset() {
    let topic = topic("orders", 2);
    let topics = std::slice::from_ref(&topic);
    let now = fresh::now();
    let (state, joined) =
        heartbeat(None, consumer_request("member-a", 0, &topic), topics, now, "fresh-member-id")
            .unwrap();
    let mut acknowledge = consumer_request("member-a", joined.member_epoch, &topic);
    acknowledge.subscribed_topic_names = None;
    acknowledge.owned_partitions = joined.assignment.as_deref().map(consumer_owned);
    let (state, _) =
        heartbeat(Some(state), acknowledge, topics, later(now, 1 * 1_000), "fresh-member-id")
            .unwrap();
    let (state, _) = heartbeat(
        Some(state),
        consumer_request("member-b", 0, &topic),
        topics,
        later(now, 2 * 1_000), "fresh-member-id")
    .unwrap();

    let mut revoke = consumer_request("member-a", joined.member_epoch, &topic);
    revoke.subscribed_topic_names = None;
    revoke.owned_partitions = None;
    let (state, revoking) =
        heartbeat(Some(state), revoke, topics, later(now, 3 * 1_000), "fresh-member-id")
            .unwrap();
    let mut lost_response = consumer_request("member-a", joined.member_epoch, &topic);
    lost_response.subscribed_topic_names = None;
    lost_response.owned_partitions = revoking.assignment.as_deref().map(consumer_owned);
    let (state, advanced) = heartbeat(
        Some(state),
        lost_response.clone(),
        topics,
        later(now, 4 * 1_000), "fresh-member-id")
    .unwrap();
    assert_eq!(advanced.member_epoch, 3);
    assert_eq!(member_of(&state, "member-a").previous_member_epoch, 2);

    let (state, recovered) = heartbeat(
        Some(state),
        lost_response.clone(),
        topics,
        later(now, 5 * 1_000), "fresh-member-id")
    .unwrap();
    assert_eq!(recovered.member_epoch, 3);
    assert_eq!(state.group_epoch, 3);
    assert_eq!(member_of(&state, "member-a").previous_member_epoch, 2);

    let mut missing_owned = lost_response.clone();
    missing_owned.owned_partitions = None;
    assert!(matches!(
        heartbeat(
            Some(state.duplicate()),
            missing_owned,
            topics,
            later(now, 6 * 1_000), "fresh-member-id"),
        Err(ControlError::FencedMemberEpoch { .. })
    ));
    let mut over_owned = lost_response;
    over_owned.owned_partitions = joined.assignment.as_deref().map(consumer_owned);
    assert!(matches!(
        heartbeat(Some(state), over_owned, topics, later(now, 6 * 1_000), "fresh-member-id"),
        Err(ControlError::FencedMemberEpoch { .. })
    ));
}

#[test]
fn consumer_static_temporary_leave_preserves_assignment_and_allows_reconnect() {
    let topic = topic("orders", 2);
    let topics = std::slice::from_ref(&topic);
    let now = fresh::now();
    let mut join = consumer_request("member-a", 0, &topic);
    join.instance_id = Some("instance-a".to_owned());
    let (state, joined) = heartbeat(None, join.clone(), topics, now, "fresh-member-id").unwrap();
    let mut acknowledge = join.clone();
    acknowledge.member_epoch = joined.member_epoch;
    acknowledge.subscribed_topic_names = None;
    acknowledge.owned_partitions = joined.assignment.as_deref().map(consumer_owned);
    let (state, _) =
        heartbeat(Some(state), acknowledge, topics, later(now, 1 * 1_000), "fresh-member-id")
            .unwrap();

    assert!(matches!(
        heartbeat(
            Some(state.duplicate()),
            join,
            topics,
            later(now, 2 * 1_000), "fresh-member-id"),
        Err(ControlError::UnreleasedInstanceId { .. })
    ));

    let mut leave = consumer_request("member-a", -2, &topic);
    leave.instance_id = Some("instance-a".to_owned());
    leave.subscribed_topic_names = None;
    leave.owned_partitions = None;
    let (state, left) =
        heartbeat(Some(state), leave, topics, later(now, 2 * 1_000), "fresh-member-id").unwrap();
    assert_eq!(left.member_epoch, -2);
    assert_eq!(left.heartbeat_interval_ms, 0);
    assert_eq!(state.group_epoch, 2);
    assert_eq!(member_of(&state, "member-a").member_epoch, -2);
    assert_eq!(
        member_of(&state, "member-a").current_assignment[0].partitions,
        [0, 1]
    );

    let mut reconnect = consumer_request("member-b", 0, &topic);
    reconnect.instance_id = Some("instance-a".to_owned());
    let (state, rejoined) =
        heartbeat(Some(state), reconnect, topics, later(now, 1 * 86_400_000), "fresh-member-id")
            .unwrap();
    assert_eq!(rejoined.member_epoch, 2);
    assert_eq!(rejoined.assignment.unwrap()[0].partitions, [0, 1]);
    assert_eq!(state.group_epoch, 2);
    assert!(!state.members.contains_key(&"member-a".to_owned()));
    assert_eq!(member_of(&state, "member-b").previous_member_epoch, 0);
}

#[test]
fn deferred_consumer_assignment_starts_at_epoch_one_and_publishes_on_next_heartbeat() {
    let topic = topic("orders", 2);
    let topics = std::slice::from_ref(&topic);
    let now = fresh::now();
    let (mut state, joined, task) = heartbeat_deferred(
        None,
        consumer_request("member-a", 0, &topic),
        topics,
        now, "fresh-member-id")
    .unwrap();
    assert_eq!(state.group_epoch, 2);
    assert_eq!(state.assignment_epoch, 1);
    assert_eq!(joined.member_epoch, 1);
    assert!(joined.assignment.as_ref().unwrap().is_empty());
    let task = task.unwrap();
    assert_eq!(
        complete_assignment(
            &mut state,
            topics,
            &task,
            later(now, 1),
        )
        .unwrap(),
        GroupAssignmentCompletion::Published
    );

    let (state, assigned, next_task) = heartbeat_deferred(
        Some(state),
        consumer_request("member-a", 1, &topic),
        topics,
        later(now, 2), "fresh-member-id")
    .unwrap();
    assert_eq!(state.assignment_epoch, 2);
    assert_eq!(assigned.member_epoch, 2);
    assert_eq!(assigned.assignment.unwrap()[0].partitions, [0, 1]);
    assert!(next_task.is_some());
}

#[test]
fn deferred_consumer_assignment_fences_a_task_after_membership_changes() {
    let topic = topic("orders", 2);
    let topics = std::slice::from_ref(&topic);
    let now = fresh::now();
    let (state, _, old_task) = heartbeat_deferred(
        None,
        consumer_request("member-a", 0, &topic),
        topics,
        now, "fresh-member-id")
    .unwrap();
    let (mut state, _, replacement_task) = heartbeat_deferred(
        Some(state),
        consumer_request("member-b", 0, &topic),
        topics,
        later(now, 1), "fresh-member-id")
    .unwrap();
    assert_eq!(replacement_task.unwrap().group_epoch, 3);
    assert_eq!(
        complete_assignment(
            &mut state,
            topics,
            &old_task.unwrap(),
            later(now, 2),
        )
        .unwrap(),
        GroupAssignmentCompletion::Stale
    );
    assert_eq!(state.assignment_epoch, 1);
}

#[test]
fn deferred_consumer_rebalance_recovers_the_last_published_epoch() {
    let topic = topic("orders", 2);
    let topics = std::slice::from_ref(&topic);
    let now = fresh::now();
    let (mut state, joined, task) = heartbeat_deferred(
        None,
        consumer_request("member-a", 0, &topic),
        topics,
        now, "fresh-member-id")
    .unwrap();
    assert_eq!(joined.member_epoch, 1);
    complete_assignment(
        &mut state,
        topics,
        &task.unwrap(),
        later(now, 1),
    )
    .unwrap();

    let (state, assigned, _) = heartbeat_deferred(
        Some(state),
        consumer_request("member-a", joined.member_epoch, &topic),
        topics,
        later(now, 2), "fresh-member-id")
    .unwrap();
    assert_eq!(assigned.member_epoch, 2);
    let assigned_partitions = assigned.assignment.as_deref().unwrap();

    let mut acknowledge = consumer_request("member-a", assigned.member_epoch, &topic);
    acknowledge.owned_partitions = Some(consumer_owned(assigned_partitions));
    let (state, _, _) = heartbeat_deferred(
        Some(state),
        acknowledge,
        topics,
        later(now, 3), "fresh-member-id")
    .unwrap();
    let (mut state, _, task) = heartbeat_deferred(
        Some(state),
        consumer_request("member-b", 0, &topic),
        topics,
        later(now, 4), "fresh-member-id")
    .unwrap();
    complete_assignment(
        &mut state,
        topics,
        &task.unwrap(),
        later(now, 5),
    )
    .unwrap();

    let mut revoke = consumer_request("member-a", assigned.member_epoch, &topic);
    revoke.owned_partitions = None;
    let (state, revoking, _) = heartbeat_deferred(
        Some(state),
        revoke,
        topics,
        later(now, 6), "fresh-member-id")
    .unwrap();
    assert_eq!(revoking.member_epoch, assigned.member_epoch);
    let retained = revoking.assignment.as_deref().unwrap();

    let mut lost_response = consumer_request("member-a", assigned.member_epoch, &topic);
    lost_response.owned_partitions = Some(consumer_owned(retained));
    let (state, advanced, _) = heartbeat_deferred(
        Some(state),
        lost_response.clone(),
        topics,
        later(now, 7), "fresh-member-id")
    .unwrap();
    assert_eq!(advanced.member_epoch, 3);
    let (_, recovered, _) = heartbeat_deferred(
        Some(state),
        lost_response,
        topics,
        later(now, 8), "fresh-member-id")
    .unwrap();
    assert_eq!(recovered.member_epoch, advanced.member_epoch);
}

fn topic(name: &str, partitions: i32) -> TopicInfo {
    TopicInfo {
        id: fresh::fresh_id(),
        name: name.to_owned(),
        partitions,
    }
}

fn consumer_request(
    member_id: &str,
    member_epoch: i32,
    topic: &TopicInfo,
) -> ConsumerGroupHeartbeat {
    ConsumerGroupHeartbeat {
        group_id: "consumers".to_owned(),
        member_id: member_id.to_owned(),
        member_epoch,
        instance_id: None,
        rack_id: None,
        rebalance_timeout_ms: if member_epoch == 0 { 300_000 } else { -1 },
        subscribed_topic_names: if member_epoch == 0 { Some(vec![topic.name.clone()]) } else { None },
        subscribed_topic_regex: None,
        server_assignor: None,
        configured_assignors: vec!["uniform".to_owned(), "range".to_owned()],
        owned_partitions: Some(Vec::new()),
        client_id: member_id.to_owned(),
        client_host: "127.0.0.1".to_owned(),
        heartbeat_interval_ms: 5_000,
        session_timeout_ms: 45_000,
        regex_refresh_interval_ms: 600_000,
        max_size: i32::MAX,
        assignment_interval_ms: 0,
    }
}

fn consumer_owned(assignment: &[ConsumerTopicAssignment]) -> Vec<ConsumerOwnedTopicPartitions> {
    assignment
        .iter()
        .map(|topic| ConsumerOwnedTopicPartitions {
            topic_id: topic.topic_id,
            partitions: topic.partitions.clone(),
        })
        .collect()
}

#[test]
fn an_assignment_that_stays_the_same_is_not_published() {
    let topic = topic("orders", 2);
    let topics = std::slice::from_ref(&topic);
    let now = fresh::now();
    let (mut state, _, task) =
        heartbeat_deferred(None, consumer_request("member-a", 0, &topic), topics, now, "fresh-member-id").unwrap();
    let task = task.unwrap();
    assert_eq!(complete_assignment(&mut state, topics, &task, later(now, 1)), Ok(GroupAssignmentCompletion::Published));
    assert_eq!(complete_assignment(&mut state, topics, &task, later(now, 2)), Ok(GroupAssignmentCompletion::Stale));
    assert_eq!(state.assignment_epoch, 2);
}
