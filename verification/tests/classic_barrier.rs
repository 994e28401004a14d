//! Classic groups whose members join behind a barrier.

use control::classic_join::JoinRequest;
use control::consumer_types::{ConsumerGroupHeartbeat, ConsumerGroupHeartbeatResult};
use control::fresh;
use control::groups::{GroupAssignment, GroupMemberIdentity, JoinGroupResult, LeaveGroupMemberResult};
use control::log_types::TopicConfig;
use control::store::Store;
use control::{ControlError, Timestamp, TopicInfo};

/// A store with its clock.
struct Broker {
    store: Store,
    now: Timestamp,
}

impl Broker {
    fn new() -> Broker {
        Broker { store: Store::new(config()), now: fresh::now() }
    }

    fn sleep(&mut self, millis: i32) {
        self.now = self.now.plus_millis(millis);
    }

    fn create_topic(&mut self, name: &str, partitions: i32) -> Result<TopicInfo, ControlError> {
        self.store.log.create_topic_now(name, partitions, config(), None, None)
    }

    fn consumer_group_heartbeat(&mut self, heartbeat: ConsumerGroupHeartbeat) -> Result<ConsumerGroupHeartbeatResult, ControlError> {
        self.store.consumer_group_heartbeat(heartbeat, self.now, &fresh::fresh_text())
    }

    #[allow(clippy::too_many_arguments)]
    fn begin_join_group(
        &mut self,
        group_id: &str,
        member_id: &str,
        instance_id: Option<&str>,
        protocol_type: &str,
        protocols: &[(String, Vec<u8>)],
        client: (&str, &str, &[String], i32),
        rebalance_timeout_ms: i32,
        initial_rebalance_delay_ms: i32,
        max_size: i32,
        api_version: i16,
    ) -> Result<JoinGroupResult, ControlError> {
        let request = JoinRequest {
            rebalance_timeout_ms,
            initial_rebalance_delay_ms,
            max_size,
            ..request(group_id, member_id, instance_id, protocol_type, protocols, client, api_version)
        };
        self.store.begin_join_group(&request, self.now, &fresh::fresh_text(), fresh::fresh_id())
    }

    fn poll_join_group(
        &mut self,
        group_id: &str,
        member_id: &str,
        instance_id: Option<&str>,
        rebalance_id: u128,
        _api_version: i16,
    ) -> Result<JoinGroupResult, ControlError> {
        self.store.classic.poll_join_group(group_id, member_id, instance_id, rebalance_id, self.now)
    }

    fn sync_group(
        &mut self,
        group_id: &str,
        generation_id: i32,
        member_id: &str,
        instance_id: Option<&str>,
        assignments: Vec<GroupAssignment>,
    ) -> Result<Vec<u8>, ControlError> {
        self.store.classic.sync_group(group_id, generation_id, member_id, instance_id, assignments, self.now)
    }

    fn heartbeat_group(&mut self, group_id: &str, generation_id: i32, member_id: &str, instance_id: Option<&str>) -> Result<(), ControlError> {
        self.store.classic.heartbeat_group(group_id, generation_id, member_id, instance_id, self.now)
    }

    fn leave_group(&mut self, group_id: &str, members: &[GroupMemberIdentity]) -> Result<Vec<LeaveGroupMemberResult>, ControlError> {
        self.store.classic.leave_group(group_id, members, self.now)
    }
}

fn config() -> TopicConfig {
    TopicConfig {
        delete_records: true,
        compact_records: false,
        retention_ms: 604_800_000,
        retention_bytes: -1,
        file_delete_delay_ms: 60_000,
        delete_retention_ms: 86_400_000,
        min_compaction_lag_ms: 0,
        max_compaction_lag_ms: i64::MAX,
    }
}

fn request(
    group_id: &str,
    member_id: &str,
    instance_id: Option<&str>,
    protocol_type: &str,
    protocols: &[(String, Vec<u8>)],
    client: (&str, &str, &[String], i32),
    api_version: i16,
) -> JoinRequest {
    JoinRequest {
        group_id: group_id.to_owned(),
        requested_member_id: member_id.to_owned(),
        group_instance_id: instance_id.map(str::to_owned),
        protocol_type: protocol_type.to_owned(),
        protocols: protocols.to_vec(),
        client_id: client.0.to_owned(),
        client_host: client.1.to_owned(),
        subscribed_topics: client.2.to_vec(),
        session_timeout_ms: client.3,
        rebalance_timeout_ms: client.3,
        initial_rebalance_delay_ms: 0,
        max_size: i32::MAX,
        api_version,
    }
}

const PROTOCOL_TYPE: &str = "consumer";

#[test]
fn consumer_conversion_discards_pending_classic_member_ids() {
    let mut store = Broker::new();
    store
        .create_topic("pending-conversion-topic", 1)
        .unwrap();
    let pending_member_id = match store
        .begin_join_group(
            "pending-conversion",
            "",
            None,
            PROTOCOL_TYPE,
            &[("range".to_owned(), vec![1])],
            ("barrier-test", "127.0.0.1", &[], 1_000),
            1_000,
            0,
            i32::MAX,
            4,
        )
        .unwrap_err()
    {
        ControlError::MemberIdRequired { member_id } => member_id,
        error => panic!("unexpected pending-member result: {error:?}"),
    };
    let heartbeat = |member_epoch| ConsumerGroupHeartbeat {
        group_id: "pending-conversion".to_owned(),
        member_id: "consumer-member".to_owned(),
        member_epoch,
        instance_id: None,
        rack_id: None,
        rebalance_timeout_ms: if member_epoch == 0 { 300_000 } else { -1 },
        subscribed_topic_names: if member_epoch == 0 { Some(vec!["pending-conversion-topic".to_owned()]) } else { None },
        subscribed_topic_regex: None,
        server_assignor: None,
        configured_assignors: vec!["uniform".to_owned(), "range".to_owned()],
        owned_partitions: if member_epoch >= 0 { Some(Vec::new()) } else { None },
        client_id: "consumer-client".to_owned(),
        client_host: "127.0.0.1".to_owned(),
        heartbeat_interval_ms: 5_000,
        session_timeout_ms: 45_000,
        regex_refresh_interval_ms: 600_000,
        assignment_interval_ms: 0,
        max_size: i32::MAX,
    };
    store.consumer_group_heartbeat(heartbeat(0)).unwrap();
    store.consumer_group_heartbeat(heartbeat(-1)).unwrap();

    assert!(matches!(
        store
            .begin_join_group(
                "pending-conversion",
                &pending_member_id,
                None,
                PROTOCOL_TYPE,
                &[("range".to_owned(), vec![1])],
                ("barrier-test", "127.0.0.1", &[], 1_000),
                1_000,
                0,
                i32::MAX,
                4,
            ),
        Err(ControlError::GroupMemberNotFound { .. })
    ));
}

#[test]
fn initial_join_gathers_members_into_one_generation() {
    let mut store = Broker::new();
    let first = begin(&mut store, "initial-barrier", "", None, 200, 40);
    let rebalance_id = first.pending_rebalance.expect("first join is parked");
    assert_eq!(first.generation_id, 0);

    let second = begin(&mut store, "initial-barrier", "", None, 200, 40);
    assert_eq!(second.pending_rebalance, Some(rebalance_id));
    assert_eq!(second.generation_id, 0);

    let early = store
        .poll_join_group("initial-barrier", &first.member_id, None, rebalance_id, 3)
        .unwrap();
    assert_eq!(early.pending_rebalance, Some(rebalance_id));

    store.sleep(50);
    let completed = store
        .poll_join_group("initial-barrier", &first.member_id, None, rebalance_id, 3)
        .unwrap();
    let peer = store
        .poll_join_group("initial-barrier", &second.member_id, None, rebalance_id, 3)
        .unwrap();
    assert_eq!(completed.pending_rebalance, None);
    assert_eq!(completed.generation_id, 1);
    assert_eq!(peer.generation_id, 1);
    assert_eq!(completed.leader, peer.leader);
    assert_eq!(completed.members.len(), 2);
}

#[test]
fn existing_members_rejoin_before_generation_advances_once() {
    let mut store = Broker::new();
    let (first, second) = ready_pair(&mut store, "existing-barrier");
    make_stable(&mut store, "existing-barrier", &first);

    let (leader, follower) = if first.member_id == first.leader {
        (&first, &second)
    } else {
        (&second, &first)
    };
    let leader_join = begin(&mut store, "existing-barrier", &leader.member_id, None, 200, 0);
    let rebalance_id = leader_join
        .pending_rebalance
        .expect("leader starts a rebalance");
    assert_eq!(leader_join.generation_id, 1);

    let follower_join = begin(
        &mut store,
        "existing-barrier",
        &follower.member_id,
        None,
        200,
        0,
    );
    assert_eq!(follower_join.pending_rebalance, None);
    assert_eq!(follower_join.generation_id, 2);
    let leader_result = store
        .poll_join_group("existing-barrier", &leader.member_id, None, rebalance_id, 3)
        .unwrap();
    assert_eq!(leader_result.generation_id, 2);
    assert_eq!(leader_result.members.len(), 2);
}

#[test]
fn timeout_removes_dynamic_non_joiners_but_retains_static_members() {
    let mut store = Broker::new();
    let first = begin(&mut store, "timeout-barrier", "", None, 60, 20);
    let second = begin(&mut store, "timeout-barrier", "", Some("static-b"), 60, 20);
    store.sleep(25);
    let ready = store
        .poll_join_group(
            "timeout-barrier",
            &first.member_id,
            None,
            first.pending_rebalance.unwrap(),
            3,
        )
        .unwrap();
    make_stable(&mut store, "timeout-barrier", &ready);

    let leader = ready
        .members
        .iter()
        .find(|member| member.member_id == ready.leader)
        .unwrap();
    let parked = begin(
        &mut store,
        "timeout-barrier",
        &leader.member_id,
        leader.group_instance_id.as_deref(),
        40,
        0,
    );
    let rebalance_id = parked.pending_rebalance.unwrap();
    store.sleep(50);
    let completed = store
        .poll_join_group(
            "timeout-barrier",
            &leader.member_id,
            leader.group_instance_id.as_deref(),
            rebalance_id,
            3,
        )
        .unwrap();

    let static_member = completed
        .members
        .iter()
        .find(|member| member.group_instance_id.as_deref() == Some("static-b"));
    if second.member_id == leader.member_id {
        assert_eq!(completed.members.len(), 1);
    } else {
        assert!(static_member.is_some());
        assert_eq!(completed.members.len(), 2);
    }
}

#[test]
fn session_expiry_releases_barrier_before_rebalance_timeout() {
    let mut store = Broker::new();
    let first = begin_with_session(&mut store, "session-expiry", "", None, 150, 500, 20);
    let second = begin_with_session(&mut store, "session-expiry", "", None, 150, 500, 20);
    let rebalance_id = first.pending_rebalance.unwrap();
    store.sleep(25);
    let ready = store
        .poll_join_group("session-expiry", &first.member_id, None, rebalance_id, 3)
        .unwrap();
    make_stable(&mut store, "session-expiry", &ready);

    let replacement = begin_with_session(&mut store, "session-expiry", "", None, 1_000, 500, 0);
    let rebalance_id = replacement.pending_rebalance.unwrap();
    store.sleep(150);
    let completed = store
        .poll_join_group(
            "session-expiry",
            &replacement.member_id,
            None,
            rebalance_id,
            3,
        )
        .unwrap();

    assert_eq!(completed.pending_rebalance, None);
    assert_eq!(completed.generation_id, 2);
    assert_eq!(completed.members.len(), 1);
    assert_eq!(completed.members[0].member_id, replacement.member_id);
    assert_ne!(replacement.member_id, second.member_id);
}

#[test]
fn expired_classic_member_releases_group_capacity() {
    let mut store = Broker::new();
    let first =
        begin_with_session_and_max_size(&mut store, "classic-capacity-expiry", "", None, 10, 100, 0, 1);
    store.sleep(15);
    let second = begin_with_session_and_max_size(
        &mut store,
        "classic-capacity-expiry",
        "",
        None,
        1_000,
        100,
        0,
        1,
    );

    assert_ne!(first.member_id, second.member_id);
    assert_eq!(second.members.len(), 1);
    assert_eq!(second.members[0].member_id, second.member_id);
}

#[test]
fn capacity_rejection_preserves_a_valid_pending_member_id() {
    let mut store = Broker::new();
    let allocated = store
        .begin_join_group(
            "classic-pending-capacity",
            "",
            None,
            PROTOCOL_TYPE,
            &[("range".to_owned(), vec![1])],
            ("pending-client", "127.0.0.1", &[], 1_000),
            100,
            0,
            1,
            4,
        )
        .unwrap_err();
    let ControlError::MemberIdRequired { member_id } = allocated else {
        panic!("expected a pending member ID");
    };

    let blocker = begin_with_session_and_max_size(
        &mut store,
        "classic-pending-capacity",
        "",
        None,
        10,
        100,
        0,
        1,
    );
    assert!(matches!(
        store
            .begin_join_group(
                "classic-pending-capacity",
                &member_id,
                None,
                PROTOCOL_TYPE,
                &[("range".to_owned(), vec![1])],
                ("pending-client", "127.0.0.1", &[], 1_000),
                100,
                0,
                1,
                4,
            ),
        Err(ControlError::GroupMaxSizeReached(_))
    ));

    store.sleep(15);
    let joined = store
        .begin_join_group(
            "classic-pending-capacity",
            &member_id,
            None,
            PROTOCOL_TYPE,
            &[("range".to_owned(), vec![1])],
            ("pending-client", "127.0.0.1", &[], 1_000),
            100,
            0,
            1,
            4,
        )
        .unwrap();
    assert_ne!(joined.member_id, blocker.member_id);
    assert_eq!(joined.member_id, member_id);
    assert_eq!(joined.members.len(), 1);
}

#[test]
fn leave_during_rebalance_completes_one_generation() {
    let mut store = Broker::new();
    let (first, second) = ready_pair(&mut store, "leave-barrier");
    make_stable(&mut store, "leave-barrier", &first);
    let (leader, follower) = if first.member_id == first.leader {
        (&first, &second)
    } else {
        (&second, &first)
    };
    let parked = begin(&mut store, "leave-barrier", &leader.member_id, None, 500, 0);
    let rebalance_id = parked.pending_rebalance.unwrap();

    store
        .leave_group(
            "leave-barrier",
            &[GroupMemberIdentity {
                member_id: follower.member_id.clone(),
                group_instance_id: None,
            }],
        )
        .unwrap();
    let completed = store
        .poll_join_group("leave-barrier", &leader.member_id, None, rebalance_id, 3)
        .unwrap();

    assert_eq!(completed.pending_rebalance, None);
    assert_eq!(completed.generation_id, 2);
    assert_eq!(completed.members.len(), 1);
    store
        .heartbeat_group(
            "leave-barrier",
            completed.generation_id,
            &leader.member_id,
            None,
        )
        .unwrap();
}

fn ready_pair(
    store: &mut Broker,
    group_id: &str,
) -> (JoinGroupResult, JoinGroupResult) {
    let first = begin(store, group_id, "", None, 200, 20);
    let second = begin(store, group_id, "", None, 200, 20);
    let rebalance_id = first.pending_rebalance.unwrap();
    store.sleep(25);
    let first = store
        .poll_join_group(group_id, &first.member_id, None, rebalance_id, 3)
        .unwrap();
    let second = store
        .poll_join_group(group_id, &second.member_id, None, rebalance_id, 3)
        .unwrap();
    (first, second)
}

fn make_stable(store: &mut Broker, group_id: &str, joined: &JoinGroupResult) {
    let assignments = joined
        .members
        .iter()
        .map(|member| GroupAssignment {
            member_id: member.member_id.clone(),
            assignment: vec![1],
        })
        .collect();
    store
        .sync_group(
            group_id,
            joined.generation_id,
            &joined.leader,
            joined
                .members
                .iter()
                .find(|member| member.member_id == joined.leader)
                .and_then(|member| member.group_instance_id.as_deref()),
            assignments,
        )
        .unwrap();
}

fn begin(
    store: &mut Broker,
    group_id: &str,
    member_id: &str,
    instance_id: Option<&str>,
    rebalance_timeout_ms: i32,
    initial_delay_ms: i32,
) -> JoinGroupResult {
    begin_with_session(
        store,
        group_id,
        member_id,
        instance_id,
        1_000,
        rebalance_timeout_ms,
        initial_delay_ms,
    )
}

fn begin_with_session(
    store: &mut Broker,
    group_id: &str,
    member_id: &str,
    instance_id: Option<&str>,
    session_timeout_ms: i32,
    rebalance_timeout_ms: i32,
    initial_delay_ms: i32,
) -> JoinGroupResult {
    begin_with_session_and_max_size(
        store,
        group_id,
        member_id,
        instance_id,
        session_timeout_ms,
        rebalance_timeout_ms,
        initial_delay_ms,
        i32::MAX,
    )
}

#[allow(clippy::too_many_arguments)]
fn begin_with_session_and_max_size(
    store: &mut Broker,
    group_id: &str,
    member_id: &str,
    instance_id: Option<&str>,
    session_timeout_ms: i32,
    rebalance_timeout_ms: i32,
    initial_delay_ms: i32,
    max_size: i32,
) -> JoinGroupResult {
    store
        .begin_join_group(
            group_id,
            member_id,
            instance_id,
            PROTOCOL_TYPE,
            &[("range".to_owned(), vec![1])],
            ("barrier-test", "127.0.0.1", &[], session_timeout_ms),
            rebalance_timeout_ms,
            initial_delay_ms,
            max_size,
            3,
        )
        .unwrap_or_else(|error| match error {
            ControlError::MemberIdRequired { .. } => {
                panic!("version 3 must not require a member-id handshake")
            }
            error => panic!("join failed: {error:?}"),
        })
}
