//! Decisions over the rows of classic groups.

use control::classic_join::JoinRequest;
use control::groups::{GroupMember, GroupMemberIdentity, GroupProtocol, LeaveGroupMemberError};
use control::row_groups::{
    begin_rows, check_generation, finish_rows, join_rows, leave_rows, remove_rows, validate_join, validate_protocols, RowBegin, RowCourse,
    RowGroup, RowJoin,
};
use control::sorted_map::SortedMap;
use control::{ControlError, Timestamp};

fn request(member: &str, instance: Option<&str>, api_version: i16) -> JoinRequest {
    JoinRequest {
        group_id: "group".to_owned(),
        requested_member_id: member.to_owned(),
        group_instance_id: instance.map(str::to_owned),
        protocol_type: "consumer".to_owned(),
        protocols: vec![("range".to_owned(), vec![1])],
        client_id: "client".to_owned(),
        client_host: "127.0.0.1".to_owned(),
        subscribed_topics: vec!["orders".to_owned()],
        session_timeout_ms: 10_000,
        rebalance_timeout_ms: 20_000,
        initial_rebalance_delay_ms: 0,
        max_size: 3,
        api_version,
    }
}

fn at(millis: i64) -> Timestamp {
    Timestamp { nanos: millis as i128 * 1_000_000 }
}

fn member(id: &str, instance: Option<&str>, joined: Option<u128>) -> GroupMember {
    GroupMember {
        member_id: id.to_owned(),
        group_instance_id: instance.map(str::to_owned),
        protocols: vec![GroupProtocol { name: "range".to_owned(), metadata: vec![1] }],
        protocol_name: "range".to_owned(),
        metadata: vec![1],
        subscribed_topics: vec!["orders".to_owned()],
        client_id: "client".to_owned(),
        client_host: "127.0.0.1".to_owned(),
        rebalance_timeout_ms: 20_000,
        session_timeout_ms: 10_000,
        last_heartbeat: at(0),
        joined_rebalance_id: joined,
    }
}

fn group(members: Vec<GroupMember>, leader: Option<&str>) -> RowGroup {
    let mut group = RowGroup::new();
    group.generation_id = 4;
    group.protocol_type = "consumer".to_owned();
    group.protocol_name = if members.is_empty() { None } else { Some("range".to_owned()) };
    group.leader = leader.map(str::to_owned);
    for member in members {
        group.members.insert(member.member_id.clone(), member);
    }
    group
}

fn nobody() -> SortedMap<(String, String), Timestamp> {
    SortedMap::new()
}

#[test]
fn joins_have_to_be_complete() {
    assert_eq!(validate_join(&request("", None, 3)), Ok(()));
    let mut incomplete = request("", None, 3);
    incomplete.session_timeout_ms = 0;
    assert!(matches!(validate_join(&incomplete), Err(ControlError::InvalidRequest(_))));
    let group = group(vec![member("a", None, None)], Some("a"));
    assert_eq!(validate_protocols(&group, &request("b", None, 3)), Ok(()));
    let mut stranger = request("b", None, 3);
    stranger.protocol_type = "connect".to_owned();
    assert_eq!(validate_protocols(&group, &stranger), Err(ControlError::InconsistentGroupProtocol("group".to_owned())));
    assert_eq!(validate_protocols(&RowGroup::new(), &stranger), Ok(()));
}

#[test]
fn newcomers_start_a_generation() {
    let empty = group(vec![], None);
    match join_rows(&empty, &nobody(), &request("", None, 3), false, at(5), "one") {
        Ok(RowJoin::Seated(seat)) => {
            assert!(seat.rebalance);
            assert_eq!(seat.generation_id, 5);
            assert_eq!(seat.leader, seat.member.member_id);
            assert_eq!(seat.protocol_name, "range");
            assert_eq!(seat.member.rebalance_timeout_ms, 10_000);
            assert_eq!(seat.member.last_heartbeat, at(5));
        },
        other => panic!("{:?}", other),
    }
    assert!(matches!(join_rows(&empty, &nobody(), &request("", None, 4), false, at(5), "one"), Ok(RowJoin::IdRequired(_))));
    assert!(matches!(
        join_rows(&empty, &nobody(), &request("stranger", None, 4), false, at(5), "one"),
        Err(ControlError::GroupMemberNotFound { .. })
    ));
}

#[test]
fn seats_are_taken_over_within_a_generation() {
    let held = group(vec![member("a", Some("i"), None), member("b", None, None)], Some("a"));
    match join_rows(&held, &nobody(), &request("", Some("i"), 9), false, at(5), "one") {
        Ok(RowJoin::Seated(seat)) => {
            assert_eq!(seat.replaced, Some("a".to_owned()));
            assert!(!seat.rebalance);
            assert_eq!(seat.generation_id, 4);
            assert_eq!(seat.leader, seat.member.member_id);
            assert_eq!(seat.told_leader, seat.leader);
            assert!(seat.skip_assignment);
        },
        other => panic!("{:?}", other),
    }
    match join_rows(&held, &nobody(), &request("", Some("i"), 8), false, at(5), "one") {
        Ok(RowJoin::Seated(seat)) => assert_eq!((seat.told_leader.as_str(), seat.skip_assignment), ("a", false)),
        other => panic!("{:?}", other),
    }
    match join_rows(&held, &nobody(), &request("b", None, 3), true, at(5), "one") {
        Ok(RowJoin::Seated(seat)) => assert_eq!((seat.generation_id, seat.leader.as_str()), (5, "a")),
        other => panic!("{:?}", other),
    }
    assert_eq!(
        join_rows(&held, &nobody(), &request("b", Some("i"), 3), false, at(5), "one"),
        Err(ControlError::FencedInstanceId { group: "group".to_owned(), instance_id: "i".to_owned() })
    );
}

#[test]
fn gathering_groups_have_a_limit() {
    let full = group(vec![member("a", None, None), member("b", None, None), member("c", None, None)], Some("a"));
    for api_version in [3, 4] {
        assert_eq!(
            begin_rows(&full, 3, &nobody(), &request("", None, api_version), false, at(5), "one", 9),
            Err(ControlError::GroupMaxSizeReached("group".to_owned()))
        );
    }
    let mut endless = request("a", None, 3);
    endless.rebalance_timeout_ms = 0;
    assert!(matches!(begin_rows(&full, 3, &nobody(), &endless, false, at(5), "one", 9), Err(ControlError::InvalidRequest(_))));
    assert!(matches!(
        begin_rows(&group(vec![], None), 0, &nobody(), &request("", None, 4), false, at(5), "one", 9),
        Ok(RowBegin::IdRequired(_))
    ));
}

#[test]
fn rebalances_start_once() {
    let begin = |group: &RowGroup, assigned: usize, request: &JoinRequest| {
        match begin_rows(group, assigned, &nobody(), request, false, at(5), "one", 9) {
            Ok(RowBegin::Seated(seat)) => seat,
            other => panic!("{:?}", other),
        }
    };
    let first = begin(&group(vec![], None), 0, &request("", None, 3));
    assert_eq!(first.course, RowCourse::Start { rebalance_id: 9, initial: true });
    assert_eq!(first.leader, first.member.member_id);
    assert_eq!((first.member.joined_rebalance_id, first.member.rebalance_timeout_ms), (Some(9), 20_000));

    let mut gathering = group(vec![member("a", None, Some(7))], Some("a"));
    gathering.rebalance_pending = true;
    gathering.rebalance_id = Some(7);
    let second = begin(&gathering, 0, &request("", None, 3));
    assert_eq!((second.course, second.leader.as_str()), (RowCourse::Extend, "a"));
    assert_eq!(second.member.joined_rebalance_id, Some(7));

    let stable = group(vec![member("a", None, Some(7)), member("b", Some("i"), Some(7))], Some("a"));
    let told = RowCourse::Stay { told_leader: "a".to_owned(), skip_assignment: false };
    assert_eq!(begin(&stable, 2, &request("b", Some("i"), 3)).course, told);
    assert_eq!(begin(&stable, 1, &request("a", None, 3)).course, told);
    assert_eq!(begin(&stable, 2, &request("a", None, 3)).course, RowCourse::Start { rebalance_id: 9, initial: false });
    let taken = begin(&stable, 2, &request("", Some("i"), 9));
    assert_eq!((taken.course, taken.replaced), (told, Some("b".to_owned())));
}

#[test]
fn rebalances_end_for_those_who_joined() {
    let mut gathering = group(vec![member("a", None, None), member("b", Some("i"), None), member("c", None, Some(7))], Some("a"));
    gathering.rebalance_id = Some(7);
    assert_eq!(finish_rows(&gathering, "group", true, true), Ok(None));
    gathering.rebalance_pending = true;
    assert_eq!(finish_rows(&gathering, "group", false, true), Ok(None));
    let finish = finish_rows(&gathering, "group", true, true).unwrap().unwrap();
    assert_eq!(finish.gone, vec!["a".to_owned()]);
    assert_eq!((finish.leader.as_str(), finish.protocol_name.as_str()), ("c", "range"));

    let mut ready = group(vec![member("a", None, Some(7)), member("c", None, Some(7))], Some("c"));
    ready.rebalance_id = Some(7);
    ready.rebalance_pending = true;
    assert_eq!(finish_rows(&ready, "group", false, false), Ok(None));
    let finish = finish_rows(&ready, "group", false, true).unwrap().unwrap();
    assert_eq!((finish.gone.len(), finish.leader.as_str()), (0, "c"));
}

#[test]
fn an_empty_leader_is_not_the_lack_of_one() {
    let mut gathering = group(vec![member("a", Some("i"), None)], Some("a"));
    gathering.rebalance_pending = true;
    gathering.rebalance_id = Some(7);
    let finish = finish_rows(&gathering, "group", true, true).unwrap().unwrap();
    assert_eq!((finish.gone.len(), finish.leader.as_str()), (0, ""));

    let begin = |group: &RowGroup| match begin_rows(group, 0, &nobody(), &request("", None, 3), false, at(5), "one", 9) {
        Ok(RowBegin::Seated(seat)) => seat,
        other => panic!("{:?}", other),
    };
    let mut finished = group(vec![member("a", Some("i"), None)], Some(finish.leader.as_str()));
    assert_eq!(begin(&finished).leader, "");
    finished.leader = None;
    let first = begin(&finished);
    assert_eq!(first.leader, first.member.member_id);

    let join = |group: &RowGroup| match join_rows(group, &nobody(), &request("a", Some("i"), 3), false, at(5), "one") {
        Ok(RowJoin::Seated(seat)) => seat,
        other => panic!("{:?}", other),
    };
    finished.protocol_name = Some(String::new());
    assert!(join(&finished).rebalance);
    finished.protocol_name = None;
    assert!(!join(&finished).rebalance);
    assert_eq!(finished.to_group().protocol_name, "");
    assert_eq!(finished.to_group().members.len(), 1);
}

#[test]
fn departures_start_a_generation() {
    let left = remove_rows(&group(vec![member("b", None, None), member("c", None, None)], None).members, 4, &Some("a".to_owned()));
    assert_eq!((left.generation_id, left.agreed), (5, Some(("range".to_owned(), "b".to_owned()))));
    let kept = remove_rows(&group(vec![member("b", None, None), member("c", None, None)], None).members, 4, &Some("c".to_owned()));
    assert_eq!(kept.agreed, Some(("range".to_owned(), "c".to_owned())));
    let empty = remove_rows(&SortedMap::new(), 4, &Some("a".to_owned()));
    assert_eq!((empty.generation_id, empty.agreed), (5, None));
}

#[test]
fn members_speak_of_the_generation_at_hand() {
    assert_eq!(check_generation("group", false, 4, 4), Ok(()));
    assert_eq!(check_generation("group", true, 4, 4), Err(ControlError::RebalanceInProgress("group".to_owned())));
    assert_eq!(
        check_generation("group", false, 4, 3),
        Err(ControlError::IllegalGeneration { group: "group".to_owned(), expected: 4, actual: 3 })
    );
}

#[test]
fn leavers_are_found_by_either_id() {
    let identity = |member: &str, instance: Option<&str>| GroupMemberIdentity {
        member_id: member.to_owned(),
        group_instance_id: instance.map(str::to_owned),
    };
    let held = group(vec![member("a", Some("i"), None), member("b", None, None)], Some("a"));
    let (told, gone) = leave_rows(&held, &[identity("b", None), identity("", Some("i")), identity("z", None), identity("z", Some("i"))]);
    assert_eq!(gone, vec!["a".to_owned(), "b".to_owned()]);
    let errors: Vec<Option<LeaveGroupMemberError>> = told.iter().map(|result| result.error).collect();
    assert_eq!(
        errors,
        vec![None, None, Some(LeaveGroupMemberError::UnknownMemberId), Some(LeaveGroupMemberError::FencedInstanceId)]
    );
}
