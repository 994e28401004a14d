//! Classic groups whose members join in one step.

use control::classic_join::JoinRequest;
use control::fresh;
use control::groups::{GroupAssignment, GroupMemberIdentity, JoinGroupResult, LeaveGroupMemberError, LeaveGroupMemberResult};
use control::log_types::TopicConfig;
use control::store::Store;
use control::{ControlError, Timestamp};

/// A store with its clock.
struct Broker {
    store: Store,
    now: Timestamp,
}

impl Broker {
    fn new() -> Broker {
        Broker { store: Store::new(config()), now: fresh::now() }
    }

    fn join_group(
        &mut self,
        group_id: &str,
        member_id: &str,
        instance_id: Option<&str>,
        protocol_type: &str,
        protocols: &[(String, Vec<u8>)],
        client: (&str, &str, &[String], i32),
        api_version: i16,
    ) -> Result<JoinGroupResult, ControlError> {
        let request = request(group_id, member_id, instance_id, protocol_type, protocols, client, api_version);
        self.store.join_group(&request, self.now, &fresh::fresh_text())
    }

    fn sync_group(
        &mut self,
        group_id: &str,
        generation_id: i32,
        member_id: &str,
        instance_id: Option<&str>,
        assignments: Vec<GroupAssignment>,
    ) -> Result<Vec<u8>, ControlError> {
        self.store.classic.sync_group(group_id, generation_id, member_id, instance_id, assignments, self.now)
    }

    fn heartbeat_group(&mut self, group_id: &str, generation_id: i32, member_id: &str, instance_id: Option<&str>) -> Result<(), ControlError> {
        self.store.classic.heartbeat_group(group_id, generation_id, member_id, instance_id, self.now)
    }

    fn leave_group(&mut self, group_id: &str, members: &[GroupMemberIdentity]) -> Result<Vec<LeaveGroupMemberResult>, ControlError> {
        self.store.classic.leave_group(group_id, members, self.now)
    }
}

fn config() -> TopicConfig {
    TopicConfig {
        delete_records: true,
        compact_records: false,
        retention_ms: 604_800_000,
        retention_bytes: -1,
        file_delete_delay_ms: 60_000,
        delete_retention_ms: 86_400_000,
        min_compaction_lag_ms: 0,
        max_compaction_lag_ms: i64::MAX,
    }
}

fn request(
    group_id: &str,
    member_id: &str,
    instance_id: Option<&str>,
    protocol_type: &str,
    protocols: &[(String, Vec<u8>)],
    client: (&str, &str, &[String], i32),
    api_version: i16,
) -> JoinRequest {
    JoinRequest {
        group_id: group_id.to_owned(),
        requested_member_id: member_id.to_owned(),
        group_instance_id: instance_id.map(str::to_owned),
        protocol_type: protocol_type.to_owned(),
        protocols: protocols.to_vec(),
        client_id: client.0.to_owned(),
        client_host: client.1.to_owned(),
        subscribed_topics: client.2.to_vec(),
        session_timeout_ms: client.3,
        rebalance_timeout_ms: client.3,
        initial_rebalance_delay_ms: 0,
        max_size: i32::MAX,
        api_version,
    }
}

const CLIENT: (&str, &str, &[String], i32) = ("classic-test", "127.0.0.1", &[], 45_000);

#[test]
fn dynamic_members_complete_the_version_four_member_id_handshake() {
    let mut store = Broker::new();
    let allocated = match store
        .join_group(
            "dynamic-v4",
            "",
            None,
            "consumer",
            &[("range".to_owned(), vec![1])],
            CLIENT,
            4,
        )
    {
        Err(ControlError::MemberIdRequired { member_id }) => member_id,
        result => panic!("expected member id allocation, got {result:?}"),
    };

    assert!(matches!(
        store
            .join_group(
                "dynamic-v4",
                "not-allocated",
                None,
                "consumer",
                &[("range".to_owned(), vec![1])],
                CLIENT,
                4,
            ),
        Err(ControlError::GroupMemberNotFound { .. })
    ));
    let joined = store
        .join_group(
            "dynamic-v4",
            &allocated,
            None,
            "consumer",
            &[("range".to_owned(), vec![1])],
            CLIENT,
            4,
        )
        .unwrap();
    assert_eq!(joined.member_id, allocated);
    assert_eq!(joined.generation_id, 1);
}

#[test]
fn classic_group_protocol_is_supported_by_every_member() {
    let mut store = Broker::new();
    let first = store
        .join_group(
            "protocol-vote",
            "",
            None,
            "consumer",
            &[
                ("range".to_owned(), vec![1]),
                ("roundrobin".to_owned(), vec![2]),
            ],
            CLIENT,
            3,
        )
        .unwrap();
    let second = store
        .join_group(
            "protocol-vote",
            "",
            None,
            "consumer",
            &[("roundrobin".to_owned(), vec![3])],
            CLIENT,
            3,
        )
        .unwrap();
    assert_eq!(second.protocol_name, "roundrobin");
    assert_eq!(second.members.len(), 2);
    assert_eq!(
        second
            .members
            .iter()
            .find(|member| member.member_id == first.member_id)
            .unwrap()
            .metadata,
        [2]
    );
    assert!(matches!(
        store
            .join_group(
                "protocol-vote",
                "",
                None,
                "consumer",
                &[("cooperative-sticky".to_owned(), vec![4])],
                CLIENT,
                3,
            ),
        Err(ControlError::InconsistentGroupProtocol(_))
    ));
}

#[test]
fn protocol_metadata_refresh_does_not_start_another_generation() {
    let mut store = Broker::new();
    let joined = store
        .join_group(
            "metadata-refresh",
            "",
            None,
            "consumer",
            &[("range".to_owned(), vec![1])],
            CLIENT,
            3,
        )
        .unwrap();
    let refreshed = store
        .join_group(
            "metadata-refresh",
            &joined.member_id,
            None,
            "consumer",
            &[("range".to_owned(), vec![2])],
            CLIENT,
            3,
        )
        .unwrap();

    assert_eq!(refreshed.generation_id, joined.generation_id);
    assert_eq!(refreshed.members.len(), 1);
    assert_eq!(refreshed.members[0].metadata, [2]);
}

#[test]
fn static_member_replacement_preserves_state_and_fences_the_old_identity() {
    let mut store = Broker::new();
    let joined = store
        .join_group(
            "static-v9",
            "",
            Some("instance-a"),
            "consumer",
            &[("range".to_owned(), vec![1])],
            CLIENT,
            9,
        )
        .unwrap();
    store
        .sync_group(
            "static-v9",
            joined.generation_id,
            &joined.member_id,
            Some("instance-a"),
            vec![GroupAssignment {
                member_id: joined.member_id.clone(),
                assignment: vec![9],
            }],
        )
        .unwrap();

    let replacement = store
        .join_group(
            "static-v9",
            "",
            Some("instance-a"),
            "consumer",
            &[("range".to_owned(), vec![1])],
            CLIENT,
            9,
        )
        .unwrap();
    assert_ne!(replacement.member_id, joined.member_id);
    assert_eq!(replacement.generation_id, joined.generation_id);
    assert!(replacement.skip_assignment);
    assert_eq!(
        store
            .sync_group(
                "static-v9",
                replacement.generation_id,
                &replacement.member_id,
                Some("instance-a"),
                Vec::new(),
            )
            .unwrap(),
        [9]
    );
    assert!(matches!(
        store
            .heartbeat_group(
                "static-v9",
                replacement.generation_id,
                &joined.member_id,
                Some("instance-a"),
            ),
        Err(ControlError::FencedInstanceId { .. })
    ));

    let fenced = store
        .leave_group(
            "static-v9",
            &[GroupMemberIdentity {
                member_id: joined.member_id,
                group_instance_id: Some("instance-a".to_owned()),
            }],
        )
        .unwrap();
    assert_eq!(
        fenced[0].error,
        Some(LeaveGroupMemberError::FencedInstanceId)
    );
    let removed = store
        .leave_group(
            "static-v9",
            &[GroupMemberIdentity {
                member_id: String::new(),
                group_instance_id: Some("instance-a".to_owned()),
            }],
        )
        .unwrap();
    assert_eq!(removed[0].error, None);
}

#[test]
fn requests_to_join_are_checked() {
    let mut store = Broker::new();
    let protocols = [("range".to_owned(), vec![1])];
    let mut outcome = |group: &str, protocol_type: &str, protocols: &[(String, Vec<u8>)], client| {
        store.join_group(group, "", None, protocol_type, protocols, client, 3)
    };
    assert!(matches!(outcome("", "consumer", &protocols, CLIENT), Err(ControlError::InvalidRequest(_))));
    assert!(matches!(outcome("checked", "", &protocols, CLIENT), Err(ControlError::InvalidRequest(_))));
    assert!(matches!(outcome("checked", "consumer", &[], CLIENT), Err(ControlError::InvalidRequest(_))));
    let hasty: (&str, &str, &[String], i32) = ("classic-test", "127.0.0.1", &[], 0);
    assert!(matches!(outcome("checked", "consumer", &protocols, hasty), Err(ControlError::InvalidRequest(_))));
    assert!(outcome("checked", "consumer", &protocols, CLIENT).is_ok());
}

#[test]
fn generations_and_members_are_checked() {
    let mut store = Broker::new();
    let joined = store.join_group("checks", "", None, "consumer", &[("range".to_owned(), vec![1])], CLIENT, 3).unwrap();
    assert!(joined.member_id.starts_with("classic-test-"));
    assert_eq!(joined.leader, joined.member_id);
    assert!(matches!(
        store.heartbeat_group("checks", joined.generation_id + 1, &joined.member_id, None),
        Err(ControlError::IllegalGeneration { .. })
    ));
    assert!(matches!(
        store.heartbeat_group("checks", joined.generation_id, "stranger", None),
        Err(ControlError::GroupMemberNotFound { .. })
    ));
    assert!(matches!(store.heartbeat_group("nowhere", 1, "stranger", None), Err(ControlError::GroupNotFound(_))));
    store.now = store.now.plus_millis(45_001);
    assert!(matches!(
        store.heartbeat_group("checks", joined.generation_id, &joined.member_id, None),
        Err(ControlError::IllegalGeneration { .. })
    ));
}

#[test]
fn joining_by_the_clock_works_alike() {
    let mut store = Store::new(config());
    let asked = request("clock", "", None, "consumer", &[("range".to_owned(), vec![1])], CLIENT, 3);
    let joined = store.join_group_now(&asked).unwrap();
    assert_eq!(joined.generation_id, 1);
    assert!(joined.member_id.starts_with("classic-test-"));
    assert_eq!(joined.member_id.len(), "classic-test-".len() + 36);
}
