//! Heartbeats of consumers.

use control::consumer_groups::update_regex_refresh_state;
use control::consumer_heartbeat::heartbeat;
use control::consumer_queries::{describe, validate_member, validate_offset_commit, validate_transaction_offset_commit};
use control::consumer_types::{
    ConsumerGroupHeartbeat, ConsumerGroupHeartbeatResult, ConsumerGroupState, ConsumerMemberState, ConsumerOwnedTopicPartitions,
    ConsumerTopicAssignment,
};
use control::fresh;
use control::{ControlError, PartitionKey, Timestamp, TopicInfo};
use std::collections::BTreeSet;

fn refused(r: Result<(ConsumerGroupState, ConsumerGroupHeartbeatResult), ControlError>) -> ControlError {
    match r {
        Ok(_) => panic!("accepted"),
        Err(error) => error,
    }
}

fn later(now: Timestamp, millis: i32) -> Timestamp {
    now.plus_millis(millis)
}

fn member_of<'a>(group: &'a ConsumerGroupState, id: &str) -> &'a ConsumerMemberState {
    group.members.get(&id.to_owned()).expect("the member is known")
}


fn request(group: &str, member: &str, epoch: i32, topic: &str) -> ConsumerGroupHeartbeat {
    ConsumerGroupHeartbeat {
        group_id: group.to_owned(),
        member_id: member.to_owned(),
        member_epoch: epoch,
        instance_id: None,
        rack_id: None,
        rebalance_timeout_ms: 300_000,
        subscribed_topic_names: Some(vec![topic.to_owned()]),
        subscribed_topic_regex: None,
        server_assignor: None,
        configured_assignors: vec!["uniform".to_owned(), "range".to_owned()],
        owned_partitions: Some(Vec::new()),
        client_id: "test-client".to_owned(),
        client_host: "127.0.0.1".to_owned(),
        heartbeat_interval_ms: 5_000,
        session_timeout_ms: 45_000,
        regex_refresh_interval_ms: 600_000,
        assignment_interval_ms: 0,
        max_size: i32::MAX,
    }
}

fn topic(name: &str, partitions: i32) -> TopicInfo {
    TopicInfo {
        id: fresh::fresh_id(),
        name: name.to_owned(),
        partitions,
    }
}

fn owned(assignment: &[ConsumerTopicAssignment]) -> Vec<ConsumerOwnedTopicPartitions> {
    assignment
        .iter()
        .map(|topic| ConsumerOwnedTopicPartitions {
            topic_id: topic.topic_id,
            partitions: topic.partitions.clone(),
        })
        .collect()
}

#[test]
fn member_joins_and_acknowledges_assignment() {
    let topic = topic("orders", 2);
    let now = fresh::now();
    let (state, joined) = heartbeat(
        None,
        request("group", "member-a", 0, "orders"),
        std::slice::from_ref(&topic),
        now, "fresh-member-id")
    .unwrap();
    assert_eq!(joined.member_epoch, 2);
    assert_eq!(joined.assignment.as_ref().unwrap()[0].partitions, [0, 1]);

    let mut next = request("group", "member-a", joined.member_epoch, "orders");
    next.subscribed_topic_names = None;
    next.owned_partitions = Some(owned(joined.assignment.as_ref().unwrap()));
    let (state, acknowledged) = heartbeat(
        Some(state),
        next,
        std::slice::from_ref(&topic),
        later(now, 1 * 1_000), "fresh-member-id")
    .unwrap();
    assert!(acknowledged.assignment.is_none());
    assert_eq!(describe(&state).state, "Stable");
}

#[test]
fn partition_moves_only_after_old_owner_revokes_it() {
    let topic = topic("orders", 2);
    let now = fresh::now();
    let (state, first) = heartbeat(
        None,
        request("group", "member-a", 0, "orders"),
        std::slice::from_ref(&topic),
        now, "fresh-member-id")
    .unwrap();
    let mut acknowledge = request("group", "member-a", first.member_epoch, "orders");
    acknowledge.subscribed_topic_names = None;
    acknowledge.owned_partitions = Some(owned(first.assignment.as_ref().unwrap()));
    let (state, _) = heartbeat(
        Some(state),
        acknowledge,
        std::slice::from_ref(&topic),
        later(now, 1 * 1_000), "fresh-member-id")
    .unwrap();

    let (state, second) = heartbeat(
        Some(state),
        request("group", "member-b", 0, "orders"),
        std::slice::from_ref(&topic),
        later(now, 2 * 1_000), "fresh-member-id")
    .unwrap();
    assert!(second.assignment.as_ref().unwrap().is_empty());

    let mut revoke = request("group", "member-a", first.member_epoch, "orders");
    revoke.subscribed_topic_names = None;
    revoke.owned_partitions = None;
    let (state, revoke_response) = heartbeat(
        Some(state),
        revoke,
        std::slice::from_ref(&topic),
        later(now, 3 * 1_000), "fresh-member-id")
    .unwrap();
    assert_eq!(revoke_response.member_epoch, first.member_epoch);
    assert_eq!(
        revoke_response.assignment.as_ref().unwrap()[0].partitions,
        [0]
    );

    let mut revoked = request("group", "member-a", first.member_epoch, "orders");
    revoked.subscribed_topic_names = None;
    revoked.owned_partitions = Some(owned(revoke_response.assignment.as_ref().unwrap()));
    let (state, advanced) = heartbeat(
        Some(state),
        revoked,
        std::slice::from_ref(&topic),
        later(now, 4 * 1_000), "fresh-member-id")
    .unwrap();
    assert_eq!(advanced.member_epoch, 3);
    let partitions = [
        PartitionKey::new("orders", 0),
        PartitionKey::new("orders", 1),
    ];
    assert_eq!(
        validate_offset_commit(&state, "member-a", first.member_epoch, &partitions).unwrap(),
        [true, false]
    );
    assert_eq!(
        validate_offset_commit(&state, "member-a", advanced.member_epoch, &partitions[1..],)
            .unwrap(),
        [true]
    );
    assert!(matches!(
        validate_transaction_offset_commit(
            &state,
            "member-a",
            None,
            first.member_epoch,
            &partitions,
        ),
        Err(ControlError::FencedMemberEpoch { .. })
    ));

    let mut acquire = request("group", "member-b", second.member_epoch, "orders");
    acquire.subscribed_topic_names = None;
    acquire.owned_partitions = Some(Vec::new());
    let (_, acquired) = heartbeat(
        Some(state),
        acquire,
        std::slice::from_ref(&topic),
        later(now, 5 * 1_000), "fresh-member-id")
    .unwrap();
    assert_eq!(acquired.assignment.as_ref().unwrap()[0].partitions, [1]);
}

#[test]
fn static_rejoin_retains_assignment_from_epoch_zero() {
    let topic = topic("orders", 2);
    let now = fresh::now();
    let mut join = request("group", "member-a", 0, "orders");
    join.instance_id = Some("instance-a".to_owned());
    join.max_size = 1;
    let (state, joined) = heartbeat(None, join, std::slice::from_ref(&topic), now, "fresh-member-id").unwrap();

    let mut acknowledge = request("group", "member-a", joined.member_epoch, "orders");
    acknowledge.instance_id = Some("instance-a".to_owned());
    acknowledge.subscribed_topic_names = None;
    acknowledge.owned_partitions = Some(owned(joined.assignment.as_ref().unwrap()));
    let (state, _) = heartbeat(
        Some(state),
        acknowledge,
        std::slice::from_ref(&topic),
        later(now, 1 * 1_000), "fresh-member-id")
    .unwrap();

    let mut leave = request("group", "member-a", -2, "orders");
    leave.instance_id = Some("instance-a".to_owned());
    leave.subscribed_topic_names = None;
    leave.owned_partitions = None;
    let (state, left) = heartbeat(
        Some(state),
        leave,
        std::slice::from_ref(&topic),
        later(now, 2 * 1_000), "fresh-member-id")
    .unwrap();
    assert_eq!(left.member_epoch, -2);
    let epochs = &member_of(&state, "member-a").assignment_epochs;
    assert!(epochs.keys().iter().all(|partition| epochs.get(partition) == Some(&0)));

    let mut rejoin = request("group", "member-b", 0, "orders");
    rejoin.instance_id = Some("instance-a".to_owned());
    rejoin.max_size = 1;
    let (state, rejoined) = heartbeat(
        Some(state),
        rejoin,
        std::slice::from_ref(&topic),
        later(now, 3 * 1_000), "fresh-member-id")
    .unwrap();
    assert_eq!(rejoined.member_epoch, joined.member_epoch);
    assert_eq!(
        validate_offset_commit(
            &state,
            "member-b",
            0,
            &[
                PartitionKey::new("orders", 0),
                PartitionKey::new("orders", 1)
            ],
        )
        .unwrap(),
        [true, true]
    );
}

#[test]
fn assignment_updates_are_batched_until_the_interval_elapses() {
    let topic = topic("orders", 2);
    let topics = std::slice::from_ref(&topic);
    let now = fresh::now();
    let mut join = request("group", "member-a", 0, "orders");
    join.assignment_interval_ms = 1_000;
    let (state, first) = heartbeat(None, join, topics, now, "fresh-member-id").unwrap();
    assert_eq!(state.group_epoch, 2);
    assert_eq!(state.assignment_epoch, 2);
    assert_eq!(state.assignment_timestamp, Some(now));

    let mut acknowledge = request("group", "member-a", first.member_epoch, "orders");
    acknowledge.subscribed_topic_names = None;
    acknowledge.owned_partitions = first.assignment.as_deref().map(owned);
    acknowledge.assignment_interval_ms = 1_000;
    let (state, _) = heartbeat(
        Some(state),
        acknowledge,
        topics,
        later(now, 50), "fresh-member-id")
    .unwrap();

    let mut second_join = request("group", "member-b", 0, "orders");
    second_join.assignment_interval_ms = 1_000;
    let (state, second) = heartbeat(
        Some(state),
        second_join,
        topics,
        later(now, 100), "fresh-member-id")
    .unwrap();
    assert_eq!(state.group_epoch, 3);
    assert_eq!(state.assignment_epoch, 2);
    assert_eq!(second.member_epoch, 2);
    assert_eq!(describe(&state).state, "Assigning");

    let mut poll = request("group", "member-b", second.member_epoch, "orders");
    poll.subscribed_topic_names = None;
    poll.assignment_interval_ms = 1_000;
    let (state, delayed) = heartbeat(
        Some(state),
        poll.clone(),
        topics,
        later(now, 999), "fresh-member-id")
    .unwrap();
    assert_eq!(state.assignment_epoch, 2);
    assert_eq!(delayed.member_epoch, 2);

    let (state, assigned) = heartbeat(
        Some(state),
        poll,
        topics,
        later(now, 1_000), "fresh-member-id")
    .unwrap();
    assert_eq!(state.group_epoch, 3);
    assert_eq!(state.assignment_epoch, 3);
    assert_eq!(
        state.assignment_timestamp,
        Some(later(now, 1_000))
    );
    assert_eq!(assigned.member_epoch, 3);
}

#[test]
fn regex_topics_refresh_after_metadata_minimum_and_configured_maximum() {
    let first_topic = topic("orders-1", 1);
    let second_topic = topic("orders-2", 1);
    let now = fresh::now();

    let mut join = request("regex-group", "member-a", 0, "unused");
    join.subscribed_topic_names = Some(Vec::new());
    join.subscribed_topic_regex = Some("orders-.*".to_owned());
    join.regex_refresh_interval_ms = 20_000;
    let (state, joined) =
        heartbeat(None, join, std::slice::from_ref(&first_topic), now, "fresh-member-id").unwrap();
    assert_eq!(state.regex_refresh_timestamp, Some(now));
    assert_eq!(
        member_of(&state, "member-a").target_assignment[0].topic_id,
        first_topic.id
    );

    let mut second_join = request("regex-group", "member-b", 0, "unused");
    second_join.subscribed_topic_names = Some(Vec::new());
    second_join.subscribed_topic_regex = Some("orders-.*".to_owned());
    second_join.regex_refresh_interval_ms = 20_000;
    let topics = [first_topic.clone(), second_topic.clone()];
    let (state, _) = heartbeat(
        Some(state),
        second_join,
        &topics,
        later(now, 5 * 1_000), "fresh-member-id")
    .unwrap();
    let target_topic_ids = |state: &ConsumerGroupState| {
        state
            .members
            .keys()
            .iter()
            .flat_map(|id| &member_of(state, id).target_assignment)
            .map(|assignment| assignment.topic_id)
            .collect::<BTreeSet<_>>()
    };
    assert_eq!(target_topic_ids(&state), BTreeSet::from([first_topic.id]));

    let mut early = request(
        "regex-group",
        "member-a",
        member_of(&state, "member-a").member_epoch,
        "unused",
    );
    early.subscribed_topic_names = None;
    early.subscribed_topic_regex = None;
    early.regex_refresh_interval_ms = 20_000;
    early.owned_partitions = Some(owned(&member_of(&state, "member-a").current_assignment));
    let (state, _) = heartbeat(
        Some(state),
        early,
        &topics,
        later(now, 9_999), "fresh-member-id")
    .unwrap();
    assert_eq!(target_topic_ids(&state), BTreeSet::from([first_topic.id]));
    assert_eq!(state.regex_refresh_timestamp, Some(now));

    let mut refresh = request(
        "regex-group",
        "member-a",
        member_of(&state, "member-a").member_epoch,
        "unused",
    );
    refresh.subscribed_topic_names = None;
    refresh.subscribed_topic_regex = None;
    refresh.regex_refresh_interval_ms = 20_000;
    refresh.owned_partitions = Some(owned(&member_of(&state, "member-a").current_assignment));
    let (state, _) =
        heartbeat(Some(state), refresh, &topics, later(now, 10 * 1_000), "fresh-member-id").unwrap();
    assert_eq!(
        target_topic_ids(&state),
        BTreeSet::from([first_topic.id, second_topic.id])
    );
    assert_eq!(
        state.regex_refresh_timestamp,
        Some(later(now, 10 * 1_000))
    );

    let mut before_max = request(
        "regex-group",
        "member-a",
        member_of(&state, "member-a").member_epoch,
        "unused",
    );
    before_max.subscribed_topic_names = None;
    before_max.subscribed_topic_regex = None;
    before_max.regex_refresh_interval_ms = 20_000;
    before_max.owned_partitions = Some(owned(&member_of(&state, "member-a").current_assignment));
    let (state, _) = heartbeat(
        Some(state),
        before_max,
        &topics,
        later(now, 29_999), "fresh-member-id")
    .unwrap();
    assert_eq!(
        state.regex_refresh_timestamp,
        Some(later(now, 10 * 1_000))
    );

    let mut at_max = request(
        "regex-group",
        "member-a",
        member_of(&state, "member-a").member_epoch,
        "unused",
    );
    at_max.subscribed_topic_names = None;
    at_max.subscribed_topic_regex = None;
    at_max.regex_refresh_interval_ms = 20_000;
    at_max.owned_partitions = Some(owned(&member_of(&state, "member-a").current_assignment));
    let (state, _) =
        heartbeat(Some(state), at_max, &topics, later(now, 30 * 1_000), "fresh-member-id").unwrap();
    assert_eq!(
        state.regex_refresh_timestamp,
        Some(later(now, 30 * 1_000))
    );
    assert!(!state.regex_refresh_pending);
    assert_eq!(joined.assignment.unwrap()[0].topic_id, first_topic.id);
}

#[test]
fn stale_epoch_is_fenced() {
    let topic = topic("orders", 1);
    let (state, joined) = heartbeat(
        None,
        request("group", "member-a", 0, "orders"),
        std::slice::from_ref(&topic),
        fresh::now(), "fresh-member-id")
    .unwrap();
    let error = refused(heartbeat(
        Some(state),
        request("group", "member-a", joined.member_epoch + 1, "orders"),
        &[topic],
        fresh::now(), "fresh-member-id"));
    assert!(matches!(error, ControlError::FencedMemberEpoch { .. }));
}

#[test]
fn each_broken_request_is_named() {
    let topic = topic("orders", 1);
    let topics = std::slice::from_ref(&topic);
    let now = fresh::now();
    let outcome = |change: &dyn Fn(&mut ConsumerGroupHeartbeat)| {
        let mut request = request("group", "member-a", 0, "orders");
        change(&mut request);
        refused(heartbeat(None, request, topics, now, "fresh-member-id"))
    };
    assert!(matches!(outcome(&|request| request.group_id = String::new()), ControlError::InvalidRequest(_)));
    assert!(matches!(outcome(&|request| request.member_epoch = -3), ControlError::InvalidRequest(_)));
    assert!(matches!(outcome(&|request| request.server_assignor = Some("sticky".to_owned())), ControlError::UnsupportedConsumerAssignor(_)));
    assert!(matches!(
        outcome(&|request| request.subscribed_topic_regex = Some("(".to_owned())),
        ControlError::InvalidRequest(text) if text.starts_with("invalid subscribed topic regex: ")
    ));
    assert!(matches!(outcome(&|request| request.max_size = 0), ControlError::InvalidRequest(_)));
    assert!(matches!(outcome(&|request| request.configured_assignors.clear()), ControlError::InvalidRequest(_)));
}

#[test]
fn strangers_and_stale_epochs_are_told_apart() {
    let topic = topic("orders", 1);
    let topics = std::slice::from_ref(&topic);
    let (state, joined) = heartbeat(None, request("group", "member-a", 0, "orders"), topics, fresh::now(), "fresh-member-id").unwrap();
    assert_eq!(validate_member(&state, "member-a", joined.member_epoch), Ok(()));
    assert!(matches!(validate_member(&state, "member-z", 1), Err(ControlError::GroupMemberNotFound { .. })));
    assert!(matches!(validate_member(&state, "member-a", joined.member_epoch + 1), Err(ControlError::FencedMemberEpoch { .. })));
}

#[test]
fn a_member_without_an_id_is_given_one() {
    let topic = topic("orders", 1);
    let topics = std::slice::from_ref(&topic);
    let (state, joined) = heartbeat(None, request("group", "", 0, "orders"), topics, fresh::now(), "fresh-member-id").unwrap();
    assert_eq!(joined.member_id, "rutomq-fresh-member-id");
    assert!(state.members.contains_key(&"rutomq-fresh-member-id".to_owned()));
}

#[test]
fn silent_members_lose_their_seat() {
    let topic = topic("orders", 2);
    let topics = std::slice::from_ref(&topic);
    let now = fresh::now();
    let (state, _) = heartbeat(None, request("group", "member-a", 0, "orders"), topics, now, "fresh-member-id").unwrap();
    let (state, second) =
        heartbeat(Some(state), request("group", "member-b", 0, "orders"), topics, later(now, 46_000), "fresh-member-id").unwrap();
    assert!(!state.members.contains_key(&"member-a".to_owned()));
    assert_eq!(second.assignment.unwrap()[0].partitions, [0, 1]);
}

#[test]
fn settled_members_share_no_partition() {
    let topic = topic("orders", 5);
    let topics = std::slice::from_ref(&topic);
    let now = fresh::now();
    let names = ["member-a", "member-b", "member-c"];
    let mut state = None;
    for (i, name) in names.iter().enumerate() {
        let at = later(now, i as i32 * 1_000);
        let (after, _) = heartbeat(state, request("group", name, 0, "orders"), topics, at, "fresh-member-id").unwrap();
        state = Some(after);
    }
    let mut group = state.unwrap();
    for round in 0..4 {
        for name in names {
            let member = member_of(&group, name);
            let mut beat = request("group", name, member.member_epoch, "orders");
            beat.subscribed_topic_names = None;
            beat.owned_partitions = Some(owned(&member.current_assignment));
            let (after, _) = heartbeat(Some(group), beat, topics, later(now, 3_000 + round * 1_000), "fresh-member-id").unwrap();
            group = after;
        }
    }
    let mut given = Vec::new();
    for name in names {
        let member = member_of(&group, name);
        assert_eq!(member.member_epoch, group.assignment_epoch);
        given.extend(member.current_assignment[0].partitions.clone());
    }
    given.sort_unstable();
    assert_eq!(given, [0, 1, 2, 3, 4]);
}

#[test]
fn time_that_runs_backwards_counts_as_none() {
    let topic = topic("orders-1", 1);
    let topics = std::slice::from_ref(&topic);
    let now = fresh::now();
    let mut join = request("group", "member-a", 0, "unused");
    join.subscribed_topic_names = Some(Vec::new());
    join.subscribed_topic_regex = Some("orders-.*".to_owned());
    let (mut group, _) = heartbeat(None, join, topics, now, "fresh-member-id").unwrap();
    assert!(!group.regex_refresh_pending);
    update_regex_refresh_state(&mut group, topics, false, 1, later(now, -5_000)).unwrap();
    assert!(!group.regex_refresh_pending);
    update_regex_refresh_state(&mut group, topics, false, 0, later(now, -5_000)).unwrap();
    assert!(group.regex_refresh_pending);
}
