//! Consumer groups: heartbeats, epochs, and the hand-over of partitions.

use crate::assignment_interval;
use crate::assignment_interval::can_compute;
use crate::consumer_assignor;
use crate::consumer_assignor::{assign_with_regex_topics, validate_assignor, UNIFORM_ASSIGNOR};
use crate::consumer_types;
use crate::consumer_types::{
    assigned_partitions, is_same_set, list_hand, topic_names, ConsumerGroupHeartbeat, ConsumerGroupHeartbeatView,
    ConsumerGroupState, ConsumerGroupStateView, ConsumerMemberState, ConsumerMemberStateView,
    ConsumerOwnedTopicPartitions, ConsumerOwnedTopicPartitionsView, ConsumerTopicAssignment,
    ConsumerTopicAssignmentView,
};
use crate::error;
use crate::error::{ControlError, ControlErrorView};
use crate::member_epoch;
use crate::partition::{TopicInfo, TopicInfoView};
use crate::patterns;
use crate::patterns::{anchor, pattern_error, pattern_matches_whole};
use crate::sorted_map;
use crate::sorted_map::{Duplicate, SortedMap};
use crate::text;
use crate::text::{join_texts, same_text, same_texts, text_with_number};
use crate::time;
use crate::time::Timestamp;
use vstd::prelude::*;

verus! {

/// How long a group keeps the topics that its patterns were resolved to, at the least.
pub const REGEX_REFRESH_MIN_INTERVAL_MS: i32 = 10_000;

/// The epoch under which a static member is away for a while.
pub const AWAY: i32 = -2;

/// The ids of a set, in order.
pub open spec fn ordered(ids: Set<Seq<char>>) -> Seq<Seq<char>> {
    sorted_map::sorted_keys::<String>(ids)
}

/// A group without members.
pub open spec fn new_group(group_id: Seq<char>, assignor: Seq<char>) -> ConsumerGroupStateView {
    ConsumerGroupStateView {
        group_id,
        group_epoch: 1,
        assignment_epoch: 1,
        assignment_timestamp: None,
        regex_refresh_timestamp: None,
        regex_refresh_pending: false,
        assignment_interval_ms: 1_000,
        assignor_name: assignor,
        members: Map::empty(),
    }
}

/// A member of which nothing is known but its id.
pub open spec fn new_member(now: int) -> ConsumerMemberStateView {
    ConsumerMemberStateView {
        member_id: Seq::empty(),
        instance_id: None,
        rack_id: None,
        member_epoch: 0,
        previous_member_epoch: 0,
        rebalance_timeout_ms: -1i32,
        session_timeout_ms: 45_000,
        subscribed_topic_names: Seq::empty(),
        subscribed_topic_regex: None,
        client_id: Seq::empty(),
        client_host: Seq::empty(),
        current_assignment: Seq::empty(),
        target_assignment: Seq::empty(),
        owned_assignment: Seq::empty(),
        assignment_epochs: Map::empty(),
        last_heartbeat: now,
    }
}

impl ConsumerGroupState {
    pub fn new(group_id: String, assignor_name: String) -> (r: Self)
        ensures
            r.deep_view() == new_group(group_id@, assignor_name@),
    {
        ConsumerGroupState {
            group_id,
            group_epoch: 1,
            assignment_epoch: 1,
            assignment_timestamp: None,
            regex_refresh_timestamp: None,
            regex_refresh_pending: false,
            assignment_interval_ms: 1_000,
            assignor_name,
            members: SortedMap::new(),
        }
    }
}

impl Default for ConsumerGroupState {
    fn default() -> (r: Self)
        ensures
            r.deep_view() == new_group(Seq::empty(), UNIFORM_ASSIGNOR@),
    {
        ConsumerGroupState::new(String::new(), UNIFORM_ASSIGNOR.to_owned())
    }
}

impl ConsumerMemberState {
    pub fn new(now: Timestamp) -> (r: Self)
        ensures
            r.deep_view() == new_member(now.deep_view()),
    {
        let r = ConsumerMemberState {
            member_id: String::new(),
            instance_id: None,
            rack_id: None,
            member_epoch: 0,
            previous_member_epoch: 0,
            rebalance_timeout_ms: -1,
            session_timeout_ms: 45_000,
            subscribed_topic_names: Vec::new(),
            subscribed_topic_regex: None,
            client_id: String::new(),
            client_host: String::new(),
            current_assignment: Vec::new(),
            target_assignment: Vec::new(),
            owned_assignment: Vec::new(),
            assignment_epochs: SortedMap::new(),
            last_heartbeat: now,
        };
        assert(r.subscribed_topic_names.deep_view() =~= Seq::<Seq<char>>::empty());
        assert(r.current_assignment.deep_view() =~= Seq::<ConsumerTopicAssignmentView>::empty());
        assert(r.target_assignment.deep_view() =~= Seq::<ConsumerTopicAssignmentView>::empty());
        assert(r.owned_assignment.deep_view() =~= Seq::<ConsumerTopicAssignmentView>::empty());
        r
    }
}

/// Whether a member has been silent for longer than its session lasts. A static member that is away
/// is waited for.
pub open spec fn silent(member: ConsumerMemberStateView, now: int) -> bool {
    member.member_epoch != AWAY && now > time::instant_after(member.last_heartbeat, member.session_timeout_ms as int)
}

/// Whether some member has been silent for too long.
pub open spec fn some_silent(group: ConsumerGroupStateView, now: int) -> bool {
    exists|id: Seq<char>| #[trigger] group.members.contains_key(id) && silent(group.members[id], now)
}

/// The group without the members that have been silent for too long.
pub open spec fn without_silent(group: ConsumerGroupStateView, now: int) -> ConsumerGroupStateView {
    ConsumerGroupStateView {
        members: sorted_map::filtered(group.members, |id: Seq<char>, member: ConsumerMemberStateView| !silent(member, now)),
        ..group
    }
}

/// Removes the members that have been silent for too long; tells whether there were any.
pub fn expire_members(group: &mut ConsumerGroupState, now: Timestamp) -> (r: bool)
    ensures
        final(group).deep_view() == without_silent(old(group).deep_view(), now.deep_view()),
        r == some_silent(old(group).deep_view(), now.deep_view()),
{
    let ghost g = group.deep_view();
    let ghost gone = |id: Seq<char>, member: ConsumerMemberStateView| silent(member, now.deep_view());
    let is_gone = |id: &String, member: &ConsumerMemberState| -> (b: bool)
        ensures b == gone(id.deep_view(), member.deep_view())
    {
        member.member_epoch != AWAY && now.nanos > member.last_heartbeat.plus_millis(member.session_timeout_ms).nanos
    };
    let expired = group.members.any(is_gone, Ghost(gone));
    assert(expired == some_silent(g, now.deep_view())) by {
        if expired {
            let id = choose|id: Seq<char>| #[trigger] g.members.contains_key(id) && gone(id, g.members[id]);
            assert(g.members.contains_key(id));
        }
    }
    let ghost stay = |id: Seq<char>, member: ConsumerMemberStateView| !silent(member, now.deep_view());
    let stays = |id: &String, member: &ConsumerMemberState| -> (b: bool)
        ensures b == stay(id.deep_view(), member.deep_view())
    {
        !(member.member_epoch != AWAY && now.nanos > member.last_heartbeat.plus_millis(member.session_timeout_ms).nanos)
    };
    group.members.retain(stays, Ghost(stay));
    expired
}

/// Why the first assignor of a list, from the `i`-th on, is not acceptable.
pub open spec fn assignor_error(list: Seq<Seq<char>>, i: int) -> Option<ControlErrorView>
    decreases list.len() - i,
{
    if i < 0 || i >= list.len() {
        None
    } else if !consumer_assignor::supported(list[i]) {
        Some(ControlErrorView::UnsupportedConsumerAssignor(list[i]))
    } else if list.take(i).contains(list[i]) {
        Some(ControlErrorView::InvalidRequest("consumer group assignors must not contain duplicates"@))
    } else {
        assignor_error(list, i + 1)
    }
}

/// Why a heartbeat is not acceptable.
pub open spec fn request_error(request: ConsumerGroupHeartbeatView) -> Option<ControlErrorView> {
    if request.group_id.len() == 0 {
        Some(ControlErrorView::InvalidRequest("consumer group id must not be empty"@))
    } else if request.member_epoch < -2 {
        Some(ControlErrorView::InvalidRequest("invalid consumer member epoch "@ + text::decimal_text(request.member_epoch as int)))
    } else if request.heartbeat_interval_ms <= 0 || request.session_timeout_ms <= 0 || request.regex_refresh_interval_ms
        < REGEX_REFRESH_MIN_INTERVAL_MS || request.assignment_interval_ms < 0 || request.max_size <= 0 {
        Some(
            ControlErrorView::InvalidRequest(
                "consumer heartbeat, session timeout, and maximum size must be positive, regex refresh interval must be at least 10000 ms, and assignment interval must be non-negative"@,
            ),
        )
    } else if request.configured_assignors.len() == 0 {
        Some(ControlErrorView::InvalidRequest("consumer group assignors must not be empty"@))
    } else if assignor_error(request.configured_assignors, 0) is Some {
        assignor_error(request.configured_assignors, 0)
    } else if request.server_assignor is Some && !request.configured_assignors.contains(request.server_assignor->0) {
        Some(ControlErrorView::UnsupportedConsumerAssignor(request.server_assignor->0))
    } else {
        None
    }
}

/// Whether a list holds a text among its first `n`.
pub fn holds_text(list: &Vec<String>, n: usize, text: &str) -> (r: bool)
    requires
        n <= list@.len(),
    ensures
        r == list.deep_view().take(n as int).contains(text@),
{
    let ghost all = list.deep_view().take(n as int);
    let mut i: usize = 0;
    while i < n
        invariant
            i <= n,
            n <= list@.len(),
            all == list.deep_view().take(n as int),
            forall|j: int| 0 <= j < i ==> all[j] != text@,
        decreases n - i,
    {
        assert(all[i as int] == list@[i as int]@);
        if same_text(list[i].as_str(), text) {
            return true;
        }
        i = i + 1;
    }
    false
}

/// Checks a heartbeat.
pub fn validate_request(request: &ConsumerGroupHeartbeat) -> (r: Result<(), ControlError>)
    ensures
        r is Ok <==> request_error(request.deep_view()) is None,
        r is Err ==> Some(r->Err_0.deep_view()) == request_error(request.deep_view()),
{
    if request.group_id.as_str().is_empty() {
        return Err(ControlError::InvalidRequest("consumer group id must not be empty".to_owned()));
    }
    if request.member_epoch < -2 {
        return Err(ControlError::InvalidRequest(text_with_number("invalid consumer member epoch ", request.member_epoch as i64)));
    }
    if request.heartbeat_interval_ms <= 0 || request.session_timeout_ms <= 0 || request.regex_refresh_interval_ms
        < REGEX_REFRESH_MIN_INTERVAL_MS || request.assignment_interval_ms < 0 || request.max_size <= 0 {
        return Err(
            ControlError::InvalidRequest(
                "consumer heartbeat, session timeout, and maximum size must be positive, regex refresh interval must be at least 10000 ms, and assignment interval must be non-negative".to_owned(),
            ),
        );
    }
    let list = &request.configured_assignors;
    let ghost all = list.deep_view();
    if list.len() == 0 {
        assert(all.len() == 0);
        return Err(ControlError::InvalidRequest("consumer group assignors must not be empty".to_owned()));
    }
    assert(all.len() == list@.len());
    let mut i: usize = 0;
    while i < list.len()
        invariant
            i <= list@.len(),
            all == list.deep_view(),
            all.len() == list@.len(),
            assignor_error(all, 0) == assignor_error(all, i as int),
            request_error(request.deep_view()) == if assignor_error(all, 0) is Some {
                assignor_error(all, 0)
            } else if request.deep_view().server_assignor is Some && !all.contains(request.deep_view().server_assignor->0) {
                Some(ControlErrorView::UnsupportedConsumerAssignor(request.deep_view().server_assignor->0))
            } else {
                None
            },
        decreases list@.len() - i,
    {
        assert(all[i as int] == list@[i as int]@);
        if let Err(error) = validate_assignor(list[i].as_str()) {
            return Err(error);
        }
        if holds_text(list, i, list[i].as_str()) {
            return Err(ControlError::InvalidRequest("consumer group assignors must not contain duplicates".to_owned()));
        }
        i = i + 1;
    }
    if let Some(assignor) = &request.server_assignor {
        assert(all.take(all.len() as int) =~= all);
        if !holds_text(list, list.len(), assignor.as_str()) {
            return Err(ControlError::UnsupportedConsumerAssignor(assignor.clone()));
        }
    }
    Ok(())
}

/// The number of partitions of the last topic with the id.
pub open spec fn partition_count(topics: Seq<TopicInfoView>, id: u128) -> int
    decreases topics.len(),
{
    if topics.len() == 0 {
        0
    } else if topics.last().id == id {
        topics.last().partitions as int
    } else {
        partition_count(topics.drop_last(), id)
    }
}

/// Whether some of the owned partitions are of the topic.
pub open spec fn mentions(owned: Seq<ConsumerOwnedTopicPartitionsView>, id: u128) -> bool {
    exists|i: int| 0 <= i < owned.len() && (#[trigger] owned[i]).topic_id == id
}

/// The owned partitions of topics that exist, as a hand.
pub open spec fn owned_hand(owned: Seq<ConsumerOwnedTopicPartitionsView>, topics: Seq<TopicInfoView>) -> Map<u128, Map<i32, ()>> {
    Map::new(
        |id: u128| mentions(owned, id) && consumer_types::names_of(topics).contains_key(id),
        |id: u128|
            consumer_types::as_keys(
                Set::new(|p: i32| consumer_types::owned_set(owned).contains((id, p)) && 0 <= p < partition_count(topics, id)),
            ),
    )
}

/// The owned partitions of topics that exist, as a list.
pub open spec fn normalized(owned: Seq<ConsumerOwnedTopicPartitionsView>, topics: Seq<TopicInfoView>) -> Seq<ConsumerTopicAssignmentView> {
    consumer_types::hand_list(owned_hand(owned, topics), consumer_types::names_of(topics))
}

fn count_partitions(topics: &[TopicInfo], id: u128) -> (r: i32)
    ensures
        r == partition_count(sorted_map::models(topics@), id),
{
    let ghost all = sorted_map::models(topics@);
    let mut i: usize = topics.len();
    assert(all.take(i as int) =~= all);
    while i > 0
        invariant
            i <= topics@.len(),
            all == sorted_map::models(topics@),
            partition_count(all, id) == partition_count(all.take(i as int), id),
        decreases i,
    {
        proof {
            assert(all.take(i as int).last() == topics@[i - 1].deep_view());
            assert(all.take(i as int).drop_last() =~= all.take(i - 1));
        }
        if topics[i - 1].id == id {
            return topics[i - 1].partitions;
        }
        i = i - 1;
    }
    0
}

/// The hand after the acceptable ones of the first `n` partitions were added.
pub open spec fn extended(held: Map<i32, ()>, partitions: Seq<i32>, count: int) -> Map<i32, ()> {
    consumer_types::as_keys(Set::new(|p: i32| held.contains_key(p) || (partitions.contains(p) && 0 <= p < count)))
}

fn extend_partitions(held: &mut SortedMap<i32, ()>, partitions: &Vec<i32>, count: i32)
    ensures
        final(held).deep_view() == extended(old(held).deep_view(), partitions.deep_view(), count as int),
{
    let ghost before = held.deep_view();
    let ghost all = partitions.deep_view();
    let mut i: usize = 0;
    assert(before =~= extended(before, all.take(0), count as int));
    while i < partitions.len()
        invariant
            i <= partitions@.len(),
            all == partitions.deep_view(),
            held.deep_view() == extended(before, all.take(i as int), count as int),
        decreases partitions@.len() - i,
    {
        let p: i32 = partitions[i];
        if 0 <= p && p < count {
            held.insert(p, ());
        }
        proof {
            let small = all.take(i as int);
            let large = all.take(i + 1);
            assert(all[i as int] == p);
            let want = extended(before, large, count as int);
            assert forall|q: i32| #[trigger] want.dom().contains(q) == held.deep_view().dom().contains(q) by {
                if small.contains(q) {
                    let j = choose|j: int| 0 <= j < small.len() && small[j] == q;
                    assert(large[j] == q);
                }
                if large.contains(q) {
                    let j = choose|j: int| 0 <= j < large.len() && large[j] == q;
                    if j < i {
                        assert(small[j] == q);
                    }
                }
                if q == p {
                    assert(large[i as int] == q);
                }
            }
            assert(want =~= held.deep_view());
        }
        i = i + 1;
    }
    assert(all.take(all.len() as int) =~= all);
}

/// Turns what a member says it owns into a list of partitions that exist.
pub fn normalize_owned(owned: &Vec<ConsumerOwnedTopicPartitions>, topics: &[TopicInfo]) -> (r: Vec<ConsumerTopicAssignment>)
    ensures
        r.deep_view() == normalized(owned.deep_view(), sorted_map::models(topics@)),
{
    let names = topic_names(topics);
    let ghost all = owned.deep_view();
    let ghost ts = sorted_map::models(topics@);
    let mut hand: SortedMap<u128, SortedMap<i32, ()>> = SortedMap::new();
    let mut i: usize = 0;
    assert(hand.deep_view() =~= owned_hand(all.take(0), ts));
    while i < owned.len()
        invariant
            i <= owned@.len(),
            all == owned.deep_view(),
            ts == sorted_map::models(topics@),
            names.deep_view() == consumer_types::names_of(ts),
            hand.deep_view() == owned_hand(all.take(i as int), ts),
        decreases owned@.len() - i,
    {
        let id: u128 = owned[i].topic_id;
        let ghost before = hand.deep_view();
        let ghost small = all.take(i as int);
        let ghost large = all.take(i + 1);
        let ghost here = owned@[i as int].partitions.deep_view();
        let known = names.contains_key(&id);
        let count: i32 = count_partitions(topics, id);
        if known {
            let mut held = match hand.remove(&id) {
                Some(held) => held,
                None => SortedMap::new(),
            };
            let ghost was = held.deep_view();
            extend_partitions(&mut held, &owned[i].partitions, count);
            let ghost now = held.deep_view();
            hand.insert(id, held);
            assert(before.remove(id).insert(id, now) =~= before.insert(id, now));
        }
        proof {
            assert(all[i as int] == owned@[i as int].deep_view());
            assert(large[i as int] == owned@[i as int].deep_view());
            let want = owned_hand(large, ts);
            assert forall|k: u128| mentions(large, k) == (mentions(small, k) || k == id) by {
                if mentions(small, k) {
                    let j = choose|j: int| 0 <= j < small.len() && (#[trigger] small[j]).topic_id == k;
                    assert(large[j] == small[j]);
                }
                if mentions(large, k) {
                    let j = choose|j: int| 0 <= j < large.len() && (#[trigger] large[j]).topic_id == k;
                    if j < i {
                        assert(small[j] == large[j]);
                    }
                }
                if k == id {
                    assert(large[i as int].topic_id == k);
                }
            }
            assert forall|k: u128, p: i32| #![trigger consumer_types::owned_set(large).contains((k, p))] consumer_types::owned_set(large).contains((k, p)) == (consumer_types::owned_set(small).contains((k, p)) || (k == id && here.contains(p))) by {
                if consumer_types::owned_set(small).contains((k, p)) {
                    let j = choose|j: int| 0 <= j < small.len() && (#[trigger] small[j]).topic_id == k && small[j].partitions.contains(p);
                    assert(large[j] == small[j]);
                }
                if consumer_types::owned_set(large).contains((k, p)) {
                    let j = choose|j: int| 0 <= j < large.len() && (#[trigger] large[j]).topic_id == k && large[j].partitions.contains(p);
                    if j < i {
                        assert(small[j] == large[j]);
                    }
                }
                if k == id && here.contains(p) {
                    assert(large[i as int].topic_id == k);
                }
            }
            assert forall|k: u128| #[trigger] want.dom().contains(k) == hand.deep_view().dom().contains(k) by {
                assert(mentions(large, k) == (mentions(small, k) || k == id));
            }
            assert(want.dom() =~= hand.deep_view().dom());
            assert forall|k: u128| #[trigger] want.dom().contains(k) implies want[k] == hand.deep_view()[k] by {
                let have = hand.deep_view()[k];
                assert forall|p: i32| #[trigger] want[k].dom().contains(p) == have.dom().contains(p) by {
                    assert(consumer_types::owned_set(large).contains((k, p)) == (consumer_types::owned_set(small).contains((k, p))
                        || (k == id && here.contains(p))));
                    if k == id && !mentions(small, id) && consumer_types::owned_set(small).contains((k, p)) {
                        let j = choose|j: int| 0 <= j < small.len() && (#[trigger] small[j]).topic_id == k && small[j].partitions.contains(p);
                        assert(small[j].topic_id == id);
                    }
                }
                assert(want[k] =~= have);
            }
            assert(want =~= hand.deep_view());
        }
        i = i + 1;
    }
    assert(all.take(all.len() as int) =~= all);
    list_hand(&hand, &names)
}

/// The first of `ids` that names a member with the instance id.
pub open spec fn first_with_instance(ids: Seq<Seq<char>>, members: Map<Seq<char>, ConsumerMemberStateView>, instance: Seq<char>) -> Option<Seq<char>>
    decreases ids.len(),
{
    if ids.len() == 0 {
        None
    } else if members[ids[0]].instance_id == Some(instance) {
        Some(ids[0])
    } else {
        first_with_instance(ids.drop_first(), members, instance)
    }
}

/// The id of the member that holds an instance id.
pub open spec fn instance_owner(members: Map<Seq<char>, ConsumerMemberStateView>, instance: Seq<char>) -> Option<Seq<char>> {
    first_with_instance(ordered(members.dom()), members, instance)
}

fn holds_instance(member: &ConsumerMemberState, instance: &str) -> (r: bool)
    ensures
        r == (member.deep_view().instance_id == Some(instance@)),
{
    match &member.instance_id {
        Some(held) => same_text(held.as_str(), instance),
        None => false,
    }
}

pub fn find_instance_owner(members: &SortedMap<String, ConsumerMemberState>, instance: &str) -> (r: Option<String>)
    ensures
        r.deep_view() == instance_owner(members.deep_view(), instance@),
        r is Some ==> members.deep_view().contains_key(r->0@) && members.deep_view()[r->0@].instance_id == Some(instance@),
{
    let ids = members.keys();
    let ghost all = ids.deep_view();
    let ghost m = members.deep_view();
    let mut i: usize = 0;
    assert(all.skip(0) =~= all);
    while i < ids.len()
        invariant
            i <= ids@.len(),
            all == ids.deep_view(),
            all == ordered(m.dom()),
            all.to_set() == m.dom(),
            m == members.deep_view(),
            instance_owner(m, instance@) == first_with_instance(all.skip(i as int), m, instance@),
        decreases ids@.len() - i,
    {
        proof {
            assert(all[i as int] == ids@[i as int].deep_view());
            assert(all.contains(all[i as int]));
            assert(m.dom().contains(all[i as int]));
            assert(all.skip(i as int)[0] == all[i as int]);
        }
        if let Some(member) = members.get(&ids[i]) {
            if holds_instance(member, instance) {
                return Some(ids[i].clone());
            }
        }
        assert(all.skip(i as int).drop_first() =~= all.skip(i + 1));
        i = i + 1;
    }
    None
}

/// The first of `ids` that names another member with the instance id.
pub open spec fn first_rival(
    ids: Seq<Seq<char>>,
    members: Map<Seq<char>, ConsumerMemberStateView>,
    instance: Seq<char>,
    member_id: Seq<char>,
) -> Option<Seq<char>>
    decreases ids.len(),
{
    if ids.len() == 0 {
        None
    } else if members[ids[0]].instance_id == Some(instance) && members[ids[0]].member_id != member_id {
        Some(members[ids[0]].member_id)
    } else {
        first_rival(ids.drop_first(), members, instance, member_id)
    }
}

pub fn find_rival(members: &SortedMap<String, ConsumerMemberState>, instance: &str, member_id: &str) -> (r: Option<String>)
    ensures
        r.deep_view() == first_rival(ordered(members.deep_view().dom()), members.deep_view(), instance@, member_id@),
{
    let ids = members.keys();
    let ghost all = ids.deep_view();
    let ghost m = members.deep_view();
    let mut i: usize = 0;
    assert(all.skip(0) =~= all);
    while i < ids.len()
        invariant
            i <= ids@.len(),
            all == ids.deep_view(),
            all == ordered(m.dom()),
            all.to_set() == m.dom(),
            m == members.deep_view(),
            first_rival(all, m, instance@, member_id@) == first_rival(all.skip(i as int), m, instance@, member_id@),
        decreases ids@.len() - i,
    {
        proof {
            assert(all[i as int] == ids@[i as int].deep_view());
            assert(all.contains(all[i as int]));
            assert(m.dom().contains(all[i as int]));
            assert(all.skip(i as int)[0] == all[i as int]);
        }
        if let Some(member) = members.get(&ids[i]) {
            if holds_instance(member, instance) && !same_text(member.member_id.as_str(), member_id) {
                return Some(member.member_id.clone());
            }
        }
        assert(all.skip(i as int).drop_first() =~= all.skip(i + 1));
        i = i + 1;
    }
    None
}

/// A list of owned partitions; empty where none was sent.
pub open spec fn or_nothing(owned: Option<Seq<ConsumerOwnedTopicPartitionsView>>) -> Seq<ConsumerOwnedTopicPartitionsView> {
    match owned {
        Some(list) => list,
        None => Seq::empty(),
    }
}

/// The seat of a member that joins.
pub struct Seat {
    pub group: ConsumerGroupStateView,
    pub member: ConsumerMemberStateView,
    pub is_new: bool,
    pub replaces_static: bool,
}

/// The seat that a joining member gets: that of the static member whose instance id it brings and
/// which is away, its own, or a new one.
pub open spec fn seat_for(
    group: ConsumerGroupStateView,
    request: ConsumerGroupHeartbeatView,
    topics: Seq<TopicInfoView>,
    now: int,
) -> Result<Seat, ControlErrorView> {
    let owner = if request.instance_id is Some {
        instance_owner(group.members, request.instance_id->0)
    } else {
        None
    };
    let owned = normalized(or_nothing(request.owned_partitions), topics);
    match owner {
        Some(old_id) => {
            let member = group.members[old_id];
            if member.member_epoch != AWAY {
                Err(
                    ControlErrorView::UnreleasedInstanceId {
                        group: request.group_id,
                        instance_id: request.instance_id->0,
                        member: old_id,
                    },
                )
            } else {
                Ok(
                    Seat {
                        group: ConsumerGroupStateView { members: group.members.remove(old_id), ..group },
                        member: ConsumerMemberStateView {
                            member_id: request.member_id,
                            member_epoch: 0,
                            previous_member_epoch: 0,
                            owned_assignment: owned,
                            ..member
                        },
                        is_new: false,
                        replaces_static: true,
                    },
                )
            }
        },
        None => {
            let existing = group.members.get(request.member_id);
            Ok(
                Seat {
                    group,
                    member: match existing {
                        Some(member) => ConsumerMemberStateView { member_id: request.member_id, ..member },
                        None => ConsumerMemberStateView { member_id: request.member_id, owned_assignment: owned, ..new_member(now) },
                    },
                    is_new: existing is None,
                    replaces_static: false,
                },
            )
        },
    }
}

fn normalize_sent(owned: &Option<Vec<ConsumerOwnedTopicPartitions>>, topics: &[TopicInfo]) -> (r: Vec<ConsumerTopicAssignment>)
    ensures
        r.deep_view() == normalized(or_nothing(owned.deep_view()), sorted_map::models(topics@)),
{
    match owned {
        Some(list) => normalize_owned(list, topics),
        None => {
            let nothing: Vec<ConsumerOwnedTopicPartitions> = Vec::new();
            assert(nothing.deep_view() =~= Seq::<ConsumerOwnedTopicPartitionsView>::empty());
            normalize_owned(&nothing, topics)
        },
    }
}

/// Finds the seat of a member that joins; gives the member, whether it is new, and whether it takes
/// over from a static one.
pub fn joining_member(group: &mut ConsumerGroupState, request: &ConsumerGroupHeartbeat, topics: &[TopicInfo], now: Timestamp) -> (r: Result<
    (ConsumerMemberState, bool, bool),
    ControlError,
>)
    ensures
        match seat_for(old(group).deep_view(), request.deep_view(), sorted_map::models(topics@), now.deep_view()) {
            Ok(seat) => {
                &&& r is Ok
                &&& final(group).deep_view() == seat.group
                &&& r->Ok_0.0.deep_view() == seat.member
                &&& r->Ok_0.1 == seat.is_new
                &&& r->Ok_0.2 == seat.replaces_static
            },
            Err(error) => r is Err && r->Err_0.deep_view() == error && final(group).deep_view() == old(group).deep_view(),
        },
{
    let owner = match &request.instance_id {
        Some(instance) => find_instance_owner(&group.members, instance.as_str()),
        None => None,
    };
    if let Some(old_id) = owner {
        let away = match group.members.get(&old_id) {
            Some(member) => member.member_epoch == AWAY,
            None => false,
        };
        if !away {
            return Err(
                ControlError::UnreleasedInstanceId {
                    group: request.group_id.clone(),
                    instance_id: request.instance_id.duplicate().unwrap(),
                    member: old_id,
                },
            );
        }
        let mut member = group.members.remove(&old_id).unwrap();
        member.member_id = request.member_id.clone();
        member.member_epoch = 0;
        member.previous_member_epoch = 0;
        member.owned_assignment = normalize_sent(&request.owned_partitions, topics);
        return Ok((member, false, true));
    }
    match group.members.get(&request.member_id) {
        Some(existing) => {
            let mut member = existing.duplicate();
            member.member_id = request.member_id.clone();
            Ok((member, false, false))
        },
        None => {
            let mut member = ConsumerMemberState::new(now);
            member.member_id = request.member_id.clone();
            member.owned_assignment = normalize_sent(&request.owned_partitions, topics);
            Ok((member, true, false))
        },
    }
}

/// A member after a heartbeat of its own.
pub open spec fn with_request(
    member: ConsumerMemberStateView,
    request: ConsumerGroupHeartbeatView,
    topics: Seq<TopicInfoView>,
    now: int,
) -> ConsumerMemberStateView {
    ConsumerMemberStateView {
        instance_id: if request.instance_id is Some {
            request.instance_id
        } else {
            member.instance_id
        },
        rack_id: if request.rack_id is Some {
            request.rack_id
        } else {
            member.rack_id
        },
        rebalance_timeout_ms: if request.rebalance_timeout_ms >= 0 {
            request.rebalance_timeout_ms
        } else {
            member.rebalance_timeout_ms
        },
        subscribed_topic_names: match request.subscribed_topic_names {
            Some(names) => ordered(names.to_set()),
            None => member.subscribed_topic_names,
        },
        subscribed_topic_regex: if request.subscribed_topic_regex is Some {
            request.subscribed_topic_regex
        } else {
            member.subscribed_topic_regex
        },
        owned_assignment: match request.owned_partitions {
            Some(owned) => normalized(owned, topics),
            None => member.owned_assignment,
        },
        session_timeout_ms: request.session_timeout_ms,
        client_id: request.client_id,
        client_host: request.client_host,
        last_heartbeat: now,
        ..member
    }
}

/// Why a member cannot be as its heartbeat wants it.
pub open spec fn subscription_error(
    member: ConsumerMemberStateView,
    request: ConsumerGroupHeartbeatView,
    topics: Seq<TopicInfoView>,
    now: int,
) -> Option<ControlErrorView> {
    let after = with_request(member, request, topics, now);
    if request.subscribed_topic_regex is Some && patterns::regex_error(patterns::anchored(request.subscribed_topic_regex->0)) is Some {
        Some(
            ControlErrorView::InvalidRequest(
                "invalid subscribed topic regex: "@ + patterns::regex_error(patterns::anchored(request.subscribed_topic_regex->0))->0,
            ),
        )
    } else if after.subscribed_topic_names.len() == 0 && after.subscribed_topic_regex is None {
        Some(ControlErrorView::InvalidRequest("a consumer member must subscribe to topics or a topic regex"@))
    } else {
        None
    }
}

/// Whether what the assignment depends on has changed.
pub open spec fn metadata_differs(a: ConsumerMemberStateView, b: ConsumerMemberStateView) -> bool {
    a.instance_id != b.instance_id || a.rack_id != b.rack_id || a.rebalance_timeout_ms != b.rebalance_timeout_ms
        || a.subscribed_topic_names != b.subscribed_topic_names || a.subscribed_topic_regex != b.subscribed_topic_regex
}

/// The texts of a list in order, each once.
fn sorted_texts(list: &Vec<String>) -> (r: Vec<String>)
    ensures
        r.deep_view() == ordered(list.deep_view().to_set()),
{
    let ghost all = list.deep_view();
    let mut set: SortedMap<String, ()> = SortedMap::new();
    let mut i: usize = 0;
    while i < list.len()
        invariant
            i <= list@.len(),
            all == list.deep_view(),
            forall|t: Seq<char>| #[trigger] set.deep_view().dom().contains(t) ==> all.contains(t),
            forall|j: int| 0 <= j < i ==> set.deep_view().dom().contains(#[trigger] all[j]),
        decreases list@.len() - i,
    {
        assert(all[i as int] == list@[i as int]@);
        set.insert(list[i].clone(), ());
        i = i + 1;
    }
    proof {
        assert forall|t: Seq<char>| #[trigger] all.to_set().contains(t) implies set.deep_view().dom().contains(t) by {
            let j = choose|j: int| 0 <= j < all.len() && all[j] == t;
            assert(set.deep_view().dom().contains(all[j]));
        }
        assert(set.deep_view().dom() =~= all.to_set());
    }
    set.keys()
}

fn same_optional(a: &Option<String>, b: &Option<String>) -> (r: bool)
    ensures
        r == (a.deep_view() == b.deep_view()),
{
    match (a, b) {
        (None, None) => true,
        (Some(x), Some(y)) => same_text(x.as_str(), y.as_str()),
        _ => false,
    }
}

/// Brings a member up to date with its heartbeat; tells whether what the assignment depends on has
/// changed.
pub fn update_member(
    member: &mut ConsumerMemberState,
    request: &ConsumerGroupHeartbeat,
    topics: &[TopicInfo],
    now: Timestamp,
) -> (r: Result<bool, ControlError>)
    ensures
        r is Err <==> subscription_error(old(member).deep_view(), request.deep_view(), sorted_map::models(topics@), now.deep_view()) is Some,
        r is Err ==> Some(r->Err_0.deep_view()) == subscription_error(old(member).deep_view(), request.deep_view(), sorted_map::models(topics@), now.deep_view()),
        r is Ok ==> {
            let after = with_request(old(member).deep_view(), request.deep_view(), sorted_map::models(topics@), now.deep_view());
            final(member).deep_view() == after && r->Ok_0 == metadata_differs(old(member).deep_view(), after)
        },
{
    let before = member.duplicate();
    if request.instance_id.is_some() {
        member.instance_id = request.instance_id.duplicate();
    }
    if request.rack_id.is_some() {
        member.rack_id = request.rack_id.duplicate();
    }
    if request.rebalance_timeout_ms >= 0 {
        member.rebalance_timeout_ms = request.rebalance_timeout_ms;
    }
    if let Some(names) = &request.subscribed_topic_names {
        member.subscribed_topic_names = sorted_texts(names);
    }
    if let Some(pattern) = &request.subscribed_topic_regex {
        if let Some(error) = pattern_error(anchor(pattern.as_str()).as_str()) {
            return Err(ControlError::InvalidRequest(join_texts("invalid subscribed topic regex: ", error.as_str())));
        }
        member.subscribed_topic_regex = Some(pattern.clone());
    }
    assert(member.subscribed_topic_names.deep_view().len() == member.subscribed_topic_names@.len());
    if member.subscribed_topic_names.len() == 0 && member.subscribed_topic_regex.is_none() {
        return Err(ControlError::InvalidRequest("a consumer member must subscribe to topics or a topic regex".to_owned()));
    }
    if let Some(owned) = &request.owned_partitions {
        member.owned_assignment = normalize_owned(owned, topics);
    }
    member.session_timeout_ms = request.session_timeout_ms;
    member.client_id = request.client_id.clone();
    member.client_host = request.client_host.clone();
    member.last_heartbeat = now;
    Ok(
        !same_optional(&before.instance_id, &member.instance_id) || !same_optional(&before.rack_id, &member.rack_id)
            || before.rebalance_timeout_ms != member.rebalance_timeout_ms || !same_texts(
            &before.subscribed_topic_names,
            &member.subscribed_topic_names,
        ) || !same_optional(&before.subscribed_topic_regex, &member.subscribed_topic_regex),
    )
}

/// The error of the first of the members whose pattern is no regular expression.
pub open spec fn pattern_failure(ids: Seq<Seq<char>>, members: Map<Seq<char>, ConsumerMemberStateView>) -> Option<ControlErrorView>
    decreases ids.len(),
{
    if ids.len() == 0 {
        None
    } else {
        let pattern = members[ids[0]].subscribed_topic_regex;
        if pattern is Some && patterns::regex_error(patterns::anchored(pattern->0)) is Some {
            Some(ControlErrorView::InvalidRequest("invalid subscribed topic regex: "@ + patterns::regex_error(patterns::anchored(pattern->0))->0))
        } else {
            pattern_failure(ids.drop_first(), members)
        }
    }
}

/// Whether some member subscribes by a pattern.
pub open spec fn has_patterns(members: Map<Seq<char>, ConsumerMemberStateView>) -> bool {
    exists|id: Seq<char>| #[trigger] members.contains_key(id) && members[id].subscribed_topic_regex is Some
}

/// Whether some member already subscribes by that pattern.
pub open spec fn has_pattern(members: Map<Seq<char>, ConsumerMemberStateView>, pattern: Seq<char>) -> bool {
    exists|id: Seq<char>| #[trigger] members.contains_key(id) && members[id].subscribed_topic_regex == Some(pattern)
}

/// Whether the pattern of some member matches a topic's name.
pub open spec fn matched(members: Map<Seq<char>, ConsumerMemberStateView>, name: Seq<char>) -> bool {
    exists|id: Seq<char>| #[trigger] members.contains_key(id) && members[id].subscribed_topic_regex is Some && patterns::matches_whole(
        members[id].subscribed_topic_regex->0,
        name,
    )
}

/// The topics that the patterns of the members match.
pub open spec fn resolved_topics(members: Map<Seq<char>, ConsumerMemberStateView>, topics: Seq<TopicInfoView>) -> Set<u128> {
    Set::new(|id: u128| exists|i: int| 0 <= i < topics.len() && (#[trigger] topics[i]).id == id && matched(members, topics[i].name))
}

/// Whether a topic is in the target assignment of some member.
pub open spec fn targeted(members: Map<Seq<char>, ConsumerMemberStateView>, topic: u128) -> bool {
    exists|id: Seq<char>| #[trigger] members.contains_key(id) && targets_topic(members[id].target_assignment, topic)
}

/// Whether a list of assignments names a topic.
pub open spec fn targets_topic(list: Seq<ConsumerTopicAssignmentView>, topic: u128) -> bool {
    exists|j: int| 0 <= j < list.len() && (#[trigger] list[j]).topic_id == topic
}

/// The topics that the patterns of the members were resolved to when the target assignment was made.
pub open spec fn cached_topics(members: Map<Seq<char>, ConsumerMemberStateView>, topics: Seq<TopicInfoView>) -> Set<u128> {
    let names = consumer_types::names_of(topics);
    Set::new(|topic: u128| targeted(members, topic) && (!names.contains_key(topic) || matched(members, names[topic])))
}

fn find_pattern_failure(members: &SortedMap<String, ConsumerMemberState>) -> (r: Option<ControlError>)
    ensures
        r.deep_view() == pattern_failure(ordered(members.deep_view().dom()), members.deep_view()),
        members.deep_view().dom().finite(),
{
    let ids = members.keys();
    let ghost all = ids.deep_view();
    let ghost m = members.deep_view();
    proof {
        sorted_map::strictly_sorted_unique::<String>(all);
    }
    let mut i: usize = 0;
    assert(all.skip(0) =~= all);
    while i < ids.len()
        invariant
            i <= ids@.len(),
            all == ids.deep_view(),
            all == ordered(m.dom()),
            all.to_set() == m.dom(),
            m == members.deep_view(),
            m.dom().finite(),
            pattern_failure(all, m) == pattern_failure(all.skip(i as int), m),
        decreases ids@.len() - i,
    {
        proof {
            assert(all[i as int] == ids@[i as int].deep_view());
            assert(all.contains(all[i as int]));
            assert(m.dom().contains(all[i as int]));
            assert(all.skip(i as int)[0] == all[i as int]);
        }
        if let Some(member) = members.get(&ids[i]) {
            if let Some(pattern) = &member.subscribed_topic_regex {
                if let Some(error) = pattern_error(anchor(pattern.as_str()).as_str()) {
                    return Some(ControlError::InvalidRequest(join_texts("invalid subscribed topic regex: ", error.as_str())));
                }
            }
        }
        assert(all.skip(i as int).drop_first() =~= all.skip(i + 1));
        i = i + 1;
    }
    None
}

fn uses_patterns(members: &SortedMap<String, ConsumerMemberState>) -> (r: bool)
    ensures
        r == has_patterns(members.deep_view()),
{
    let ghost p = |id: Seq<char>, member: ConsumerMemberStateView| member.subscribed_topic_regex is Some;
    let test = |id: &String, member: &ConsumerMemberState| -> (b: bool)
        ensures b == p(id.deep_view(), member.deep_view())
    {
        member.subscribed_topic_regex.is_some()
    };
    let r = members.any(test, Ghost(p));
    proof {
        if r {
            let id = choose|id: Seq<char>| #[trigger] members.deep_view().contains_key(id) && p(id, members.deep_view()[id]);
            assert(members.deep_view().contains_key(id));
        }
    }
    r
}

pub fn uses_pattern(members: &SortedMap<String, ConsumerMemberState>, pattern: &str) -> (r: bool)
    ensures
        r == has_pattern(members.deep_view(), pattern@),
{
    let ghost p = |id: Seq<char>, member: ConsumerMemberStateView| member.subscribed_topic_regex == Some(pattern@);
    let test = |id: &String, member: &ConsumerMemberState| -> (b: bool)
        ensures b == p(id.deep_view(), member.deep_view())
    {
        match &member.subscribed_topic_regex {
            Some(other) => same_text(other.as_str(), pattern),
            None => false,
        }
    };
    let r = members.any(test, Ghost(p));
    proof {
        if r {
            let id = choose|id: Seq<char>| #[trigger] members.deep_view().contains_key(id) && p(id, members.deep_view()[id]);
            assert(members.deep_view().contains_key(id));
        }
    }
    r
}

fn is_matched(members: &SortedMap<String, ConsumerMemberState>, name: &str) -> (r: bool)
    ensures
        r == matched(members.deep_view(), name@),
{
    let ghost p = |id: Seq<char>, member: ConsumerMemberStateView|
        member.subscribed_topic_regex is Some && patterns::matches_whole(member.subscribed_topic_regex->0, name@);
    let test = |id: &String, member: &ConsumerMemberState| -> (b: bool)
        ensures b == p(id.deep_view(), member.deep_view())
    {
        match &member.subscribed_topic_regex {
            Some(pattern) => pattern_matches_whole(pattern.as_str(), name),
            None => false,
        }
    };
    let r = members.any(test, Ghost(p));
    proof {
        if r {
            let id = choose|id: Seq<char>| #[trigger] members.deep_view().contains_key(id) && p(id, members.deep_view()[id]);
            assert(members.deep_view().contains_key(id));
        }
    }
    r
}

fn find_resolved_topics(members: &SortedMap<String, ConsumerMemberState>, topics: &[TopicInfo]) -> (r: SortedMap<u128, ()>)
    ensures
        r.deep_view() == consumer_types::as_keys(resolved_topics(members.deep_view(), sorted_map::models(topics@))),
{
    let ghost all = sorted_map::models(topics@);
    let ghost m = members.deep_view();
    let mut r: SortedMap<u128, ()> = SortedMap::new();
    let mut i: usize = 0;
    while i < topics.len()
        invariant
            i <= topics@.len(),
            all == sorted_map::models(topics@),
            m == members.deep_view(),
            forall|id: u128| #[trigger] r.deep_view().dom().contains(id) ==> resolved_topics(m, all).contains(id),
            forall|j: int| 0 <= j < i && matched(m, all[j].name) ==> r.deep_view().dom().contains((#[trigger] all[j]).id),
        decreases topics@.len() - i,
    {
        assert(all[i as int] == topics@[i as int].deep_view());
        if is_matched(members, topics[i].name.as_str()) {
            r.insert(topics[i].id, ());
        }
        i = i + 1;
    }
    proof {
        assert forall|id: u128| #[trigger] resolved_topics(m, all).contains(id) implies r.deep_view().dom().contains(id) by {
            let j = choose|j: int| 0 <= j < all.len() && (#[trigger] all[j]).id == id && matched(m, all[j].name);
            assert(r.deep_view().dom().contains(all[j].id));
        }
        assert(r.deep_view() =~= consumer_types::as_keys(resolved_topics(m, all)));
    }
    r
}

fn collect_topics(topics: &mut SortedMap<u128, ()>, list: &Vec<ConsumerTopicAssignment>)
    ensures
        final(topics).deep_view() == consumer_types::as_keys(
            old(topics).deep_view().dom().union(Set::new(|topic: u128| targets_topic(list.deep_view(), topic))),
        ),
{
    let ghost before = topics.deep_view().dom();
    let ghost all = list.deep_view();
    let ghost want = consumer_types::as_keys(before.union(Set::new(|topic: u128| targets_topic(all, topic))));
    let mut i: usize = 0;
    while i < list.len()
        invariant
            i <= list@.len(),
            all == list.deep_view(),
            forall|topic: u128| #[trigger] topics.deep_view().dom().contains(topic) ==> before.contains(topic) || targets_topic(all, topic),
            forall|topic: u128| before.contains(topic) ==> #[trigger] topics.deep_view().dom().contains(topic),
            forall|j: int| 0 <= j < i ==> topics.deep_view().dom().contains((#[trigger] all[j]).topic_id),
        decreases list@.len() - i,
    {
        assert(all[i as int] == list@[i as int].deep_view());
        topics.insert(list[i].topic_id, ());
        i = i + 1;
    }
    proof {
        assert forall|topic: u128| #[trigger] want.dom().contains(topic) == topics.deep_view().dom().contains(topic) by {
            if targets_topic(all, topic) {
                let j = choose|j: int| 0 <= j < all.len() && (#[trigger] all[j]).topic_id == topic;
                assert(topics.deep_view().dom().contains(all[j].topic_id));
            }
        }
        assert(want =~= topics.deep_view());
    }
}

fn find_cached_topics(members: &SortedMap<String, ConsumerMemberState>, topics: &[TopicInfo]) -> (r: SortedMap<u128, ()>)
    ensures
        r.deep_view() == consumer_types::as_keys(cached_topics(members.deep_view(), sorted_map::models(topics@))),
{
    let names = topic_names(topics);
    let ids = members.keys();
    let ghost all = ids.deep_view();
    let ghost m = members.deep_view();
    let mut found: SortedMap<u128, ()> = SortedMap::new();
    let mut i: usize = 0;
    while i < ids.len()
        invariant
            i <= ids@.len(),
            all == ids.deep_view(),
            all.to_set() == m.dom(),
            m == members.deep_view(),
            forall|topic: u128| #[trigger] found.deep_view().dom().contains(topic) ==> targeted(m, topic),
            forall|j: int, topic: u128| 0 <= j < i && #[trigger] targets_topic(m[all[j]].target_assignment, topic)
                ==> found.deep_view().dom().contains(topic),
        decreases ids@.len() - i,
    {
        proof {
            assert(all[i as int] == ids@[i as int].deep_view());
            assert(all.contains(all[i as int]));
            assert(m.dom().contains(all[i as int]));
            assert(m.contains_key(all[i as int]));
        }
        if let Some(member) = members.get(&ids[i]) {
            collect_topics(&mut found, &member.target_assignment);
        }
        i = i + 1;
    }
    proof {
        assert forall|topic: u128| targeted(m, topic) implies #[trigger] found.deep_view().dom().contains(topic) by {
            let id = choose|id: Seq<char>| #[trigger] m.contains_key(id) && targets_topic(m[id].target_assignment, topic);
            assert(all.to_set().contains(id));
            assert(all.contains(id));
            let j = choose|j: int| 0 <= j < all.len() && all[j] == id;
            assert(targets_topic(m[all[j]].target_assignment, topic));
        }
    }
    let ghost before = found.deep_view();
    let ghost keep = |topic: u128, nothing: ()| !names.deep_view().contains_key(topic) || matched(m, names.deep_view()[topic]);
    let keeps = |topic: &u128, nothing: &()| -> (b: bool)
        ensures b == keep(topic.deep_view(), nothing.deep_view())
    {
        match names.get(topic) {
            None => true,
            Some(name) => is_matched(members, name.as_str()),
        }
    };
    found.retain(keeps, Ghost(keep));
    assert(found.deep_view() =~= consumer_types::as_keys(cached_topics(m, sorted_map::models(topics@)))) by {
        let want = consumer_types::as_keys(cached_topics(m, sorted_map::models(topics@)));
        assert forall|topic: u128| #[trigger] want.dom().contains(topic) == found.deep_view().dom().contains(topic) by {
            assert(before.dom().contains(topic) == targeted(m, topic));
        }
    }
    found
}

fn is_same_topics(a: &SortedMap<u128, ()>, b: &SortedMap<u128, ()>) -> (r: bool)
    ensures
        r == (a.deep_view() == b.deep_view()),
{
    let ghost outside_b = |topic: u128, nothing: ()| !b.deep_view().contains_key(topic);
    let is_outside_b = |topic: &u128, nothing: &()| -> (o: bool)
        ensures o == outside_b(topic.deep_view(), nothing.deep_view())
    {
        !b.contains_key(topic)
    };
    let more = a.any(is_outside_b, Ghost(outside_b));
    let ghost outside_a = |topic: u128, nothing: ()| !a.deep_view().contains_key(topic);
    let is_outside_a = |topic: &u128, nothing: &()| -> (o: bool)
        ensures o == outside_a(topic.deep_view(), nothing.deep_view())
    {
        !a.contains_key(topic)
    };
    let fewer = b.any(is_outside_a, Ghost(outside_a));
    proof {
        if !more && !fewer {
            assert forall|topic: u128| #[trigger] a.deep_view().dom().contains(topic) == b.deep_view().dom().contains(topic) by {
                if a.deep_view().contains_key(topic) {
                    assert(!outside_b(topic, a.deep_view()[topic]));
                }
                if b.deep_view().contains_key(topic) {
                    assert(!outside_a(topic, b.deep_view()[topic]));
                }
            }
            assert(a.deep_view() =~= b.deep_view());
        }
        if more {
            let topic = choose|topic: u128| #[trigger] a.deep_view().contains_key(topic) && outside_b(topic, a.deep_view()[topic]);
            assert(a.deep_view().contains_key(topic) && !b.deep_view().contains_key(topic));
        }
        if fewer {
            let topic = choose|topic: u128| #[trigger] b.deep_view().contains_key(topic) && outside_a(topic, b.deep_view()[topic]);
            assert(b.deep_view().contains_key(topic) && !a.deep_view().contains_key(topic));
        }
    }
    !more && !fewer
}

/// The milliseconds from one instant to another; none where the other one is earlier.
pub open spec fn elapsed_ms(last: int, now: int) -> int {
    if now < last {
        0
    } else {
        (now - last) / 1_000_000
    }
}

/// Whether so many milliseconds have gone by since an instant.
fn has_elapsed(last: Timestamp, millis: i32, now: Timestamp) -> (r: bool)
    ensures
        r == (elapsed_ms(last.deep_view(), now.deep_view()) >= millis),
{
    if millis <= 0 {
        return true;
    }
    if now.nanos < last.nanos {
        return false;
    }
    let step: i128 = millis as i128 * 1_000_000;
    last.nanos <= i128::MAX - step && last.nanos + step <= now.nanos
}

/// Whether the topics of the group's patterns have to be resolved anew.
pub open spec fn refresh_due(group: ConsumerGroupStateView, topics: Seq<TopicInfoView>, introduced: bool, interval_ms: i32, now: int) -> bool {
    ||| introduced
    ||| group.regex_refresh_timestamp is None
    ||| elapsed_ms(group.regex_refresh_timestamp->0, now) >= interval_ms
    ||| {
        &&& elapsed_ms(group.regex_refresh_timestamp->0, now) >= REGEX_REFRESH_MIN_INTERVAL_MS
        &&& consumer_types::as_keys(resolved_topics(group.members, topics)) != consumer_types::as_keys(cached_topics(group.members, topics))
    }
}

/// The group after it was decided whether the topics of its patterns have to be resolved anew.
pub open spec fn with_refresh_state(
    group: ConsumerGroupStateView,
    topics: Seq<TopicInfoView>,
    introduced: bool,
    interval_ms: i32,
    now: int,
) -> Result<ConsumerGroupStateView, ControlErrorView> {
    match pattern_failure(ordered(group.members.dom()), group.members) {
        Some(error) => Err(error),
        None => Ok(
            if !has_patterns(group.members) {
                ConsumerGroupStateView { regex_refresh_timestamp: None, regex_refresh_pending: false, ..group }
            } else if refresh_due(group, topics, introduced, interval_ms, now) {
                ConsumerGroupStateView { regex_refresh_pending: true, ..group }
            } else {
                group
            },
        ),
    }
}

/// Decides whether the topics of the group's patterns have to be resolved anew.
pub fn update_regex_refresh_state(
    group: &mut ConsumerGroupState,
    topics: &[TopicInfo],
    regex_introduced: bool,
    refresh_interval_ms: i32,
    now: Timestamp,
) -> (r: Result<(), ControlError>)
    ensures
        match with_refresh_state(old(group).deep_view(), sorted_map::models(topics@), regex_introduced, refresh_interval_ms, now.deep_view()) {
            Ok(after) => r is Ok && final(group).deep_view() == after,
            Err(error) => r is Err && r->Err_0.deep_view() == error && final(group).deep_view() == old(group).deep_view(),
        },
{
    if let Some(error) = find_pattern_failure(&group.members) {
        return Err(error);
    }
    if !uses_patterns(&group.members) {
        group.regex_refresh_timestamp = None;
        group.regex_refresh_pending = false;
        return Ok(());
    }
    let due = regex_introduced || match group.regex_refresh_timestamp {
        None => true,
        Some(last) => has_elapsed(last, refresh_interval_ms, now) || (has_elapsed(
            last,
            REGEX_REFRESH_MIN_INTERVAL_MS,
            now,
        ) && !is_same_topics(
            &find_resolved_topics(&group.members, topics),
            &find_cached_topics(&group.members, topics),
        )),
    };
    if due {
        group.regex_refresh_pending = true;
    }
    Ok(())
}

/// One more, up to the largest epoch.
pub open spec fn next_epoch(epoch: i32) -> i32 {
    if epoch == i32::MAX {
        epoch
    } else {
        (epoch + 1) as i32
    }
}

fn advance(epoch: i32) -> (r: i32)
    ensures
        r == next_epoch(epoch),
{
    if epoch == i32::MAX {
        epoch
    } else {
        epoch + 1
    }
}

/// The group with its members' target assignments set.
pub open spec fn with_targets(
    group: ConsumerGroupStateView,
    target: Map<Seq<char>, Seq<ConsumerTopicAssignmentView>>,
) -> Map<Seq<char>, ConsumerMemberStateView> {
    Map::new(
        |id: Seq<char>| group.members.contains_key(id),
        |id: Seq<char>| ConsumerMemberStateView { target_assignment: target[id], ..group.members[id] },
    )
}

/// Whether the target assignment of some member is another one.
pub open spec fn target_differs(members: Map<Seq<char>, ConsumerMemberStateView>, target: Map<Seq<char>, Seq<ConsumerTopicAssignmentView>>) -> bool {
    exists|id: Seq<char>| #[trigger] members.contains_key(id) && consumer_types::assignment_set(members[id].target_assignment)
        != consumer_types::assignment_set(target[id])
}

/// The group with a target assignment that was just computed.
pub open spec fn published(
    group: ConsumerGroupStateView,
    target: Map<Seq<char>, Seq<ConsumerTopicAssignmentView>>,
    changed: bool,
    now: int,
) -> ConsumerGroupStateView {
    let due = assignment_interval::due(group.assignment_timestamp, group.assignment_interval_ms, now);
    let bump = !changed && group.group_epoch == group.assignment_epoch && target_differs(group.members, target);
    let g = if bump {
        ConsumerGroupStateView { group_epoch: next_epoch(group.group_epoch), ..group }
    } else {
        group
    };
    if bump && !due {
        g
    } else {
        let h = if g.group_epoch > g.assignment_epoch {
            ConsumerGroupStateView {
                assignment_epoch: g.group_epoch,
                assignment_timestamp: Some(now),
                members: with_targets(g, target),
                ..g
            }
        } else {
            g
        };
        if h.regex_refresh_pending {
            ConsumerGroupStateView { regex_refresh_timestamp: Some(now), regex_refresh_pending: false, ..h }
        } else {
            h
        }
    }
}

/// The group after its target assignment was brought up to date.
pub open spec fn retargeted(
    group: ConsumerGroupStateView,
    topics: Seq<TopicInfoView>,
    changed: bool,
    now: int,
) -> Result<ConsumerGroupStateView, ControlErrorView> {
    let g = if changed {
        ConsumerGroupStateView { group_epoch: next_epoch(group.group_epoch), ..group }
    } else {
        group
    };
    if g.group_epoch > g.assignment_epoch && !assignment_interval::due(g.assignment_timestamp, g.assignment_interval_ms, now) {
        Ok(g)
    } else {
        match pattern_failure(ordered(g.members.dom()), g.members) {
            Some(error) => Err(error),
            None => {
                let cached = if !g.regex_refresh_pending && has_patterns(g.members) {
                    Some(consumer_types::as_keys(cached_topics(g.members, topics)))
                } else {
                    None
                };
                match consumer_assignor::targets(g, topics, cached) {
                    Err(error) => Err(error),
                    Ok(target) => Ok(published(g, target, changed, now)),
                }
            },
        }
    }
}

fn is_target_different(members: &SortedMap<String, ConsumerMemberState>, target: &SortedMap<String, Vec<ConsumerTopicAssignment>>) -> (r: bool)
    requires
        members.deep_view().dom() == target.deep_view().dom(),
    ensures
        r == target_differs(members.deep_view(), target.deep_view()),
{
    let ghost t = target.deep_view();
    let ghost p = |id: Seq<char>, member: ConsumerMemberStateView|
        !t.contains_key(id) || consumer_types::assignment_set(member.target_assignment) != consumer_types::assignment_set(t[id]);
    let test = |id: &String, member: &ConsumerMemberState| -> (b: bool)
        ensures b == p(id.deep_view(), member.deep_view())
    {
        match target.get(id) {
            None => true,
            Some(list) => {
                let have = assigned_partitions(&member.target_assignment);
                let want = assigned_partitions(list);
                assert(have.deep_view().dom() =~= consumer_types::assignment_set(member.target_assignment.deep_view()));
                assert(want.deep_view().dom() =~= consumer_types::assignment_set(list.deep_view()));
                !is_same_set(&have, &want)
            },
        }
    };
    let r = members.any(test, Ghost(p));
    proof {
        if r {
            let id = choose|id: Seq<char>| #[trigger] members.deep_view().contains_key(id) && p(id, members.deep_view()[id]);
            assert(members.deep_view().contains_key(id));
        } else {
            assert forall|id: Seq<char>| #[trigger] members.deep_view().contains_key(id)
                implies consumer_types::assignment_set(members.deep_view()[id].target_assignment) == consumer_types::assignment_set(t[id]) by {
                assert(!p(id, members.deep_view()[id]));
            }
        }
    }
    r
}

fn set_targets(
    members: &mut SortedMap<String, ConsumerMemberState>,
    target: &SortedMap<String, Vec<ConsumerTopicAssignment>>,
    group: Ghost<ConsumerGroupStateView>,
)
    requires
        old(members).deep_view().dom() == target.deep_view().dom(),
        old(members).deep_view() == group@.members,
    ensures
        final(members).deep_view() == with_targets(group@, target.deep_view()),
{
    let ids = members.keys();
    let ghost all = ids.deep_view();
    let ghost before = members.deep_view();
    let ghost want = with_targets(group@, target.deep_view());
    let mut i: usize = 0;
    while i < ids.len()
        invariant
            i <= ids@.len(),
            all == ids.deep_view(),
            all.to_set() == before.dom(),
            before == group@.members,
            before.dom() == target.deep_view().dom(),
            want == with_targets(group@, target.deep_view()),
            members.deep_view().dom() == before.dom(),
            sorted_map::strictly_sorted::<String>(all),
            forall|j: int| 0 <= j < i ==> members.deep_view()[#[trigger] all[j]] == want[all[j]],
            forall|j: int| i <= j < all.len() ==> members.deep_view()[#[trigger] all[j]] == before[all[j]],
        decreases ids@.len() - i,
    {
        let ghost at = members.deep_view();
        proof {
            assert(all[i as int] == ids@[i as int].deep_view());
            assert(all.contains(all[i as int]));
            assert(before.dom().contains(all[i as int]));
            sorted_map::strictly_sorted_unique::<String>(all);
        }
        let list = match target.get(&ids[i]) {
            Some(list) => list.duplicate(),
            None => Vec::new(),
        };
        let mut member = members.remove(&ids[i]).unwrap();
        member.target_assignment = list;
        members.insert(ids[i].clone(), member);
        proof {
            assert(members.deep_view().dom() =~= before.dom());
        }
        i = i + 1;
    }
    proof {
        assert forall|id: Seq<char>| #[trigger] want.dom().contains(id) implies members.deep_view()[id] == want[id] by {
            assert(all.to_set().contains(id));
            assert(all.contains(id));
            let j = choose|j: int| 0 <= j < all.len() && all[j] == id;
            assert(members.deep_view()[all[j]] == want[all[j]]);
        }
        assert(members.deep_view().dom() =~= want.dom());
        assert(members.deep_view() =~= want);
    }
}

proof fn targets_cover_members(group: ConsumerGroupStateView, topics: Seq<TopicInfoView>, resolved: Option<Map<u128, ()>>)
    requires
        group.members.dom().finite(),
        consumer_assignor::targets(group, topics, resolved) is Ok,
    ensures
        consumer_assignor::targets(group, topics, resolved)->Ok_0.dom() == group.members.dom(),
{
    let subs = consumer_assignor::subscriptions(group.members, topics, resolved);
    assert(subs.dom() =~= group.members.dom());
    let target = consumer_assignor::targets(group, topics, resolved)->Ok_0;
    if group.assignor_name == consumer_assignor::RANGE_ASSIGNOR@ {
        assert(target.dom() =~= subs.dom());
    } else {
        consumer_assignor::uniform_covers_members(topics, subs);
        assert(target.dom() =~= subs.dom());
    }
}

/// Publishes a target assignment that was just computed, where the group is ready for it.
pub fn publish(group: &mut ConsumerGroupState, target: &SortedMap<String, Vec<ConsumerTopicAssignment>>, metadata_changed: bool, now: Timestamp)
    requires
        old(group).deep_view().members.dom() == target.deep_view().dom(),
    ensures
        final(group).deep_view() == published(old(group).deep_view(), target.deep_view(), metadata_changed, now.deep_view()),
{
    let due = can_compute(group.assignment_timestamp, group.assignment_interval_ms, now);
    if !metadata_changed && group.group_epoch == group.assignment_epoch && is_target_different(&group.members, target) {
        group.group_epoch = advance(group.group_epoch);
        if !due {
            return;
        }
    }
    if group.group_epoch > group.assignment_epoch {
        let ghost g = group.deep_view();
        group.assignment_epoch = group.group_epoch;
        group.assignment_timestamp = Some(now);
        set_targets(&mut group.members, target, Ghost(g));
    }
    if group.regex_refresh_pending {
        group.regex_refresh_timestamp = Some(now);
        group.regex_refresh_pending = false;
    }
}

/// Brings the target assignment of a group up to date.
pub fn refresh_target_assignment(
    group: &mut ConsumerGroupState,
    topics: &[TopicInfo],
    metadata_changed: bool,
    now: Timestamp,
) -> (r: Result<(), ControlError>)
    requires
        consumer_assignor::countable(sorted_map::models(topics@)),
    ensures
        match retargeted(old(group).deep_view(), sorted_map::models(topics@), metadata_changed, now.deep_view()) {
            Ok(after) => r is Ok && final(group).deep_view() == after,
            Err(error) => r is Err && r->Err_0.deep_view() == error && (!metadata_changed ==> final(group).deep_view() == old(group).deep_view()),
        },
{
    if metadata_changed {
        group.group_epoch = advance(group.group_epoch);
    }
    let ghost g = group.deep_view();
    if group.group_epoch > group.assignment_epoch && !can_compute(group.assignment_timestamp, group.assignment_interval_ms, now) {
        return Ok(());
    }
    if let Some(error) = find_pattern_failure(&group.members) {
        return Err(error);
    }
    let ghost ts = sorted_map::models(topics@);
    let computed = if !group.regex_refresh_pending && uses_patterns(&group.members) {
        let cached = find_cached_topics(&group.members, topics);
        assign_with_regex_topics(group, topics, Some(&cached))
    } else {
        assign_with_regex_topics(group, topics, None)
    };
    match computed {
        Err(error) => Err(error),
        Ok(target) => {
            proof {
                let cached = if !g.regex_refresh_pending && has_patterns(g.members) {
                    Some(consumer_types::as_keys(cached_topics(g.members, ts)))
                } else {
                    None
                };
                assert(consumer_assignor::targets(g, ts, cached) is Ok);
                targets_cover_members(g, ts, cached);
            }
            publish(group, &target, metadata_changed, now);
            Ok(())
        },
    }
}

} // verus!
