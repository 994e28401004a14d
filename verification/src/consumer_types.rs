//! Consumer groups as plain data, and sets of partitions.

use crate::sorted_map;
use crate::sorted_map::{Duplicate, SortedMap};
use crate::partition::{TopicInfo, TopicInfoView};
use crate::time::Timestamp;
use vstd::prelude::*;

verus! {

/// The partitions of a topic that a member says it owns.
#[derive(Debug, Clone, PartialEq, Eq)]
pub struct ConsumerOwnedTopicPartitions {
    pub topic_id: u128,
    pub partitions: Vec<i32>,
}

/// The model of [`ConsumerOwnedTopicPartitions`].
pub struct ConsumerOwnedTopicPartitionsView {
    pub topic_id: u128,
    pub partitions: Seq<i32>,
}

impl DeepView for ConsumerOwnedTopicPartitions {
    type V = ConsumerOwnedTopicPartitionsView;

    open spec fn deep_view(&self) -> ConsumerOwnedTopicPartitionsView {
        ConsumerOwnedTopicPartitionsView {
            topic_id: self.topic_id,
            partitions: self.partitions.deep_view(),
        }
    }
}

impl Duplicate for ConsumerOwnedTopicPartitions {
    fn duplicate(&self) -> (r: Self) {
        ConsumerOwnedTopicPartitions {
            topic_id: self.topic_id,
            partitions: self.partitions.duplicate(),
        }
    }
}

/// The partitions of a topic that are assigned to a member.
#[derive(Debug, Clone, PartialEq, Eq)]
pub struct ConsumerTopicAssignment {
    pub topic_id: u128,
    pub topic_name: String,
    pub partitions: Vec<i32>,
}

/// The model of [`ConsumerTopicAssignment`].
pub struct ConsumerTopicAssignmentView {
    pub topic_id: u128,
    pub topic_name: Seq<char>,
    pub partitions: Seq<i32>,
}

impl DeepView for ConsumerTopicAssignment {
    type V = ConsumerTopicAssignmentView;

    open spec fn deep_view(&self) -> ConsumerTopicAssignmentView {
        ConsumerTopicAssignmentView {
            topic_id: self.topic_id,
            topic_name: self.topic_name@,
            partitions: self.partitions.deep_view(),
        }
    }
}

impl Duplicate for ConsumerTopicAssignment {
    fn duplicate(&self) -> (r: Self) {
        ConsumerTopicAssignment {
            topic_id: self.topic_id,
            topic_name: self.topic_name.clone(),
            partitions: self.partitions.duplicate(),
        }
    }
}

/// What a member sends with a heartbeat.
#[derive(Debug, Clone, PartialEq, Eq)]
pub struct ConsumerGroupHeartbeat {
    pub group_id: String,
    pub member_id: String,
    pub member_epoch: i32,
    pub instance_id: Option<String>,
    pub rack_id: Option<String>,
    pub rebalance_timeout_ms: i32,
    pub subscribed_topic_names: Option<Vec<String>>,
    pub subscribed_topic_regex: Option<String>,
    pub server_assignor: Option<String>,
    pub configured_assignors: Vec<String>,
    pub owned_partitions: Option<Vec<ConsumerOwnedTopicPartitions>>,
    pub client_id: String,
    pub client_host: String,
    pub heartbeat_interval_ms: i32,
    pub session_timeout_ms: i32,
    pub regex_refresh_interval_ms: i32,
    pub assignment_interval_ms: i32,
    pub max_size: i32,
}

/// The model of [`ConsumerGroupHeartbeat`].
pub struct ConsumerGroupHeartbeatView {
    pub group_id: Seq<char>,
    pub member_id: Seq<char>,
    pub member_epoch: i32,
    pub instance_id: Option<Seq<char>>,
    pub rack_id: Option<Seq<char>>,
    pub rebalance_timeout_ms: i32,
    pub subscribed_topic_names: Option<Seq<Seq<char>>>,
    pub subscribed_topic_regex: Option<Seq<char>>,
    pub server_assignor: Option<Seq<char>>,
    pub configured_assignors: Seq<Seq<char>>,
    pub owned_partitions: Option<Seq<ConsumerOwnedTopicPartitionsView>>,
    pub client_id: Seq<char>,
    pub client_host: Seq<char>,
    pub heartbeat_interval_ms: i32,
    pub session_timeout_ms: i32,
    pub regex_refresh_interval_ms: i32,
    pub assignment_interval_ms: i32,
    pub max_size: i32,
}

impl DeepView for ConsumerGroupHeartbeat {
    type V = ConsumerGroupHeartbeatView;

    open spec fn deep_view(&self) -> ConsumerGroupHeartbeatView {
        ConsumerGroupHeartbeatView {
            group_id: self.group_id@,
            member_id: self.member_id@,
            member_epoch: self.member_epoch,
            instance_id: self.instance_id.deep_view(),
            rack_id: self.rack_id.deep_view(),
            rebalance_timeout_ms: self.rebalance_timeout_ms,
            subscribed_topic_names: self.subscribed_topic_names.deep_view(),
            subscribed_topic_regex: self.subscribed_topic_regex.deep_view(),
            server_assignor: self.server_assignor.deep_view(),
            configured_assignors: self.configured_assignors.deep_view(),
            owned_partitions: self.owned_partitions.deep_view(),
            client_id: self.client_id@,
            client_host: self.client_host@,
            heartbeat_interval_ms: self.heartbeat_interval_ms,
            session_timeout_ms: self.session_timeout_ms,
            regex_refresh_interval_ms: self.regex_refresh_interval_ms,
            assignment_interval_ms: self.assignment_interval_ms,
            max_size: self.max_size,
        }
    }
}

impl Duplicate for ConsumerGroupHeartbeat {
    fn duplicate(&self) -> (r: Self) {
        ConsumerGroupHeartbeat {
            group_id: self.group_id.clone(),
            member_id: self.member_id.clone(),
            member_epoch: self.member_epoch,
            instance_id: self.instance_id.duplicate(),
            rack_id: self.rack_id.duplicate(),
            rebalance_timeout_ms: self.rebalance_timeout_ms,
            subscribed_topic_names: self.subscribed_topic_names.duplicate(),
            subscribed_topic_regex: self.subscribed_topic_regex.duplicate(),
            server_assignor: self.server_assignor.duplicate(),
            configured_assignors: self.configured_assignors.duplicate(),
            owned_partitions: self.owned_partitions.duplicate(),
            client_id: self.client_id.clone(),
            client_host: self.client_host.clone(),
            heartbeat_interval_ms: self.heartbeat_interval_ms,
            session_timeout_ms: self.session_timeout_ms,
            regex_refresh_interval_ms: self.regex_refresh_interval_ms,
            assignment_interval_ms: self.assignment_interval_ms,
            max_size: self.max_size,
        }
    }
}

/// What a member is told in return.
#[derive(Debug, Clone, PartialEq, Eq)]
pub struct ConsumerGroupHeartbeatResult {
    pub member_id: String,
    pub member_epoch: i32,
    pub heartbeat_interval_ms: i32,
    pub assignment: Option<Vec<ConsumerTopicAssignment>>,
}

/// The model of [`ConsumerGroupHeartbeatResult`].
pub struct ConsumerGroupHeartbeatResultView {
    pub member_id: Seq<char>,
    pub member_epoch: i32,
    pub heartbeat_interval_ms: i32,
    pub assignment: Option<Seq<ConsumerTopicAssignmentView>>,
}

impl DeepView for ConsumerGroupHeartbeatResult {
    type V = ConsumerGroupHeartbeatResultView;

    open spec fn deep_view(&self) -> ConsumerGroupHeartbeatResultView {
        ConsumerGroupHeartbeatResultView {
            member_id: self.member_id@,
            member_epoch: self.member_epoch,
            heartbeat_interval_ms: self.heartbeat_interval_ms,
            assignment: self.assignment.deep_view(),
        }
    }
}

impl Duplicate for ConsumerGroupHeartbeatResult {
    fn duplicate(&self) -> (r: Self) {
        ConsumerGroupHeartbeatResult {
            member_id: self.member_id.clone(),
            member_epoch: self.member_epoch,
            heartbeat_interval_ms: self.heartbeat_interval_ms,
            assignment: self.assignment.duplicate(),
        }
    }
}

/// A member of a consumer group in full.
#[derive(Debug, Clone, PartialEq, Eq)]
pub struct ConsumerGroupMemberDescription {
    pub member_id: String,
    pub instance_id: Option<String>,
    pub rack_id: Option<String>,
    pub member_epoch: i32,
    pub client_id: String,
    pub client_host: String,
    pub subscribed_topic_names: Vec<String>,
    pub subscribed_topic_regex: Option<String>,
    pub assignment: Vec<ConsumerTopicAssignment>,
    pub target_assignment: Vec<ConsumerTopicAssignment>,
}

/// The model of [`ConsumerGroupMemberDescription`].
pub struct ConsumerGroupMemberDescriptionView {
    pub member_id: Seq<char>,
    pub instance_id: Option<Seq<char>>,
    pub rack_id: Option<Seq<char>>,
    pub member_epoch: i32,
    pub client_id: Seq<char>,
    pub client_host: Seq<char>,
    pub subscribed_topic_names: Seq<Seq<char>>,
    pub subscribed_topic_regex: Option<Seq<char>>,
    pub assignment: Seq<ConsumerTopicAssignmentView>,
    pub target_assignment: Seq<ConsumerTopicAssignmentView>,
}

impl DeepView for ConsumerGroupMemberDescription {
    type V = ConsumerGroupMemberDescriptionView;

    open spec fn deep_view(&self) -> ConsumerGroupMemberDescriptionView {
        ConsumerGroupMemberDescriptionView {
            member_id: self.member_id@,
            instance_id: self.instance_id.deep_view(),
            rack_id: self.rack_id.deep_view(),
            member_epoch: self.member_epoch,
            client_id: self.client_id@,
            client_host: self.client_host@,
            subscribed_topic_names: self.subscribed_topic_names.deep_view(),
            subscribed_topic_regex: self.subscribed_topic_regex.deep_view(),
            assignment: self.assignment.deep_view(),
            target_assignment: self.target_assignment.deep_view(),
        }
    }
}

impl Duplicate for ConsumerGroupMemberDescription {
    fn duplicate(&self) -> (r: Self) {
        ConsumerGroupMemberDescription {
            member_id: self.member_id.clone(),
            instance_id: self.instance_id.duplicate(),
            rack_id: self.rack_id.duplicate(),
            member_epoch: self.member_epoch,
            client_id: self.client_id.clone(),
            client_host: self.client_host.clone(),
            subscribed_topic_names: self.subscribed_topic_names.duplicate(),
            subscribed_topic_regex: self.subscribed_topic_regex.duplicate(),
            assignment: self.assignment.duplicate(),
            target_assignment: self.target_assignment.duplicate(),
        }
    }
}

/// A consumer group in full.
#[derive(Debug, Clone, PartialEq, Eq)]
pub struct ConsumerGroupDescription {
    pub group_id: String,
    pub state: String,
    pub group_epoch: i32,
    pub assignment_epoch: i32,
    pub assignor_name: String,
    pub members: Vec<ConsumerGroupMemberDescription>,
}

/// The model of [`ConsumerGroupDescription`].
pub struct ConsumerGroupDescriptionView {
    pub group_id: Seq<char>,
    pub state: Seq<char>,
    pub group_epoch: i32,
    pub assignment_epoch: i32,
    pub assignor_name: Seq<char>,
    pub members: Seq<ConsumerGroupMemberDescriptionView>,
}

impl DeepView for ConsumerGroupDescription {
    type V = ConsumerGroupDescriptionView;

    open spec fn deep_view(&self) -> ConsumerGroupDescriptionView {
        ConsumerGroupDescriptionView {
            group_id: self.group_id@,
            state: self.state@,
            group_epoch: self.group_epoch,
            assignment_epoch: self.assignment_epoch,
            assignor_name: self.assignor_name@,
            members: self.members.deep_view(),
        }
    }
}

impl Duplicate for ConsumerGroupDescription {
    fn duplicate(&self) -> (r: Self) {
        ConsumerGroupDescription {
            group_id: self.group_id.clone(),
            state: self.state.clone(),
            group_epoch: self.group_epoch,
            assignment_epoch: self.assignment_epoch,
            assignor_name: self.assignor_name.clone(),
            members: self.members.duplicate(),
        }
    }
}

/// A member of a consumer group.
pub struct ConsumerMemberState {
    pub member_id: String,
    pub instance_id: Option<String>,
    pub rack_id: Option<String>,
    pub member_epoch: i32,
    pub previous_member_epoch: i32,
    pub rebalance_timeout_ms: i32,
    pub session_timeout_ms: i32,
    pub subscribed_topic_names: Vec<String>,
    pub subscribed_topic_regex: Option<String>,
    pub client_id: String,
    pub client_host: String,
    pub current_assignment: Vec<ConsumerTopicAssignment>,
    pub target_assignment: Vec<ConsumerTopicAssignment>,
    pub owned_assignment: Vec<ConsumerTopicAssignment>,
    pub assignment_epochs: SortedMap<(u128, i32), i32>,
    pub last_heartbeat: Timestamp,
}

/// The model of [`ConsumerMemberState`].
pub struct ConsumerMemberStateView {
    pub member_id: Seq<char>,
    pub instance_id: Option<Seq<char>>,
    pub rack_id: Option<Seq<char>>,
    pub member_epoch: i32,
    pub previous_member_epoch: i32,
    pub rebalance_timeout_ms: i32,
    pub session_timeout_ms: i32,
    pub subscribed_topic_names: Seq<Seq<char>>,
    pub subscribed_topic_regex: Option<Seq<char>>,
    pub client_id: Seq<char>,
    pub client_host: Seq<char>,
    pub current_assignment: Seq<ConsumerTopicAssignmentView>,
    pub target_assignment: Seq<ConsumerTopicAssignmentView>,
    pub owned_assignment: Seq<ConsumerTopicAssignmentView>,
    pub assignment_epochs: Map<(u128, i32), i32>,
    pub last_heartbeat: int,
}

impl DeepView for ConsumerMemberState {
    type V = ConsumerMemberStateView;

    open spec fn deep_view(&self) -> ConsumerMemberStateView {
        ConsumerMemberStateView {
            member_id: self.member_id@,
            instance_id: self.instance_id.deep_view(),
            rack_id: self.rack_id.deep_view(),
            member_epoch: self.member_epoch,
            previous_member_epoch: self.previous_member_epoch,
            rebalance_timeout_ms: self.rebalance_timeout_ms,
            session_timeout_ms: self.session_timeout_ms,
            subscribed_topic_names: self.subscribed_topic_names.deep_view(),
            subscribed_topic_regex: self.subscribed_topic_regex.deep_view(),
            client_id: self.client_id@,
            client_host: self.client_host@,
            current_assignment: self.current_assignment.deep_view(),
            target_assignment: self.target_assignment.deep_view(),
            owned_assignment: self.owned_assignment.deep_view(),
            assignment_epochs: self.assignment_epochs.deep_view(),
            last_heartbeat: self.last_heartbeat.deep_view(),
        }
    }
}

impl Duplicate for ConsumerMemberState {
    fn duplicate(&self) -> (r: Self) {
        ConsumerMemberState {
            member_id: self.member_id.clone(),
            instance_id: self.instance_id.duplicate(),
            rack_id: self.rack_id.duplicate(),
            member_epoch: self.member_epoch,
            previous_member_epoch: self.previous_member_epoch,
            rebalance_timeout_ms: self.rebalance_timeout_ms,
            session_timeout_ms: self.session_timeout_ms,
            subscribed_topic_names: self.subscribed_topic_names.duplicate(),
            subscribed_topic_regex: self.subscribed_topic_regex.duplicate(),
            client_id: self.client_id.clone(),
            client_host: self.client_host.clone(),
            current_assignment: self.current_assignment.duplicate(),
            target_assignment: self.target_assignment.duplicate(),
            owned_assignment: self.owned_assignment.duplicate(),
            assignment_epochs: self.assignment_epochs.duplicate(),
            last_heartbeat: self.last_heartbeat,
        }
    }
}

/// A consumer group.
pub struct ConsumerGroupState {
    pub group_id: String,
    pub group_epoch: i32,
    pub assignment_epoch: i32,
    pub assignment_timestamp: Option<Timestamp>,
    pub regex_refresh_timestamp: Option<Timestamp>,
    pub regex_refresh_pending: bool,
    pub assignment_interval_ms: i32,
    pub assignor_name: String,
    pub members: SortedMap<String, ConsumerMemberState>,
}

/// The model of [`ConsumerGroupState`].
pub struct ConsumerGroupStateView {
    pub group_id: Seq<char>,
    pub group_epoch: i32,
    pub assignment_epoch: i32,
    pub assignment_timestamp: Option<int>,
    pub regex_refresh_timestamp: Option<int>,
    pub regex_refresh_pending: bool,
    pub assignment_interval_ms: i32,
    pub assignor_name: Seq<char>,
    pub members: Map<Seq<char>, ConsumerMemberStateView>,
}

impl DeepView for ConsumerGroupState {
    type V = ConsumerGroupStateView;

    open spec fn deep_view(&self) -> ConsumerGroupStateView {
        ConsumerGroupStateView {
            group_id: self.group_id@,
            group_epoch: self.group_epoch,
            assignment_epoch: self.assignment_epoch,
            assignment_timestamp: self.assignment_timestamp.deep_view(),
            regex_refresh_timestamp: self.regex_refresh_timestamp.deep_view(),
            regex_refresh_pending: self.regex_refresh_pending,
            assignment_interval_ms: self.assignment_interval_ms,
            assignor_name: self.assignor_name@,
            members: self.members.deep_view(),
        }
    }
}

impl Duplicate for ConsumerGroupState {
    fn duplicate(&self) -> (r: Self) {
        ConsumerGroupState {
            group_id: self.group_id.clone(),
            group_epoch: self.group_epoch,
            assignment_epoch: self.assignment_epoch,
            assignment_timestamp: self.assignment_timestamp.duplicate(),
            regex_refresh_timestamp: self.regex_refresh_timestamp.duplicate(),
            regex_refresh_pending: self.regex_refresh_pending,
            assignment_interval_ms: self.assignment_interval_ms,
            assignor_name: self.assignor_name.clone(),
            members: self.members.duplicate(),
        }
    }
}

/// The protocol of a group whose assignment is computed later.
#[derive(Debug, Clone, Copy, PartialEq, Eq, Hash, Structural)]
pub enum AssignmentProtocol {
    Consumer,
    Share,
    Streams,
}

impl DeepView for AssignmentProtocol {
    type V = AssignmentProtocol;

    open spec fn deep_view(&self) -> AssignmentProtocol {
        *self
    }
}

impl Duplicate for AssignmentProtocol {
    fn duplicate(&self) -> (r: Self) {
        *self
    }
}

impl AssignmentProtocol {
    pub fn as_str(self) -> (r: &'static str)
        ensures
            r@ == match self {
                AssignmentProtocol::Consumer => "consumer"@,
                AssignmentProtocol::Share => "share"@,
                AssignmentProtocol::Streams => "streams"@,
            },
    {
        match self {
            AssignmentProtocol::Consumer => "consumer",
            AssignmentProtocol::Share => "share",
            AssignmentProtocol::Streams => "streams",
        }
    }
}

/// What became of an assignment that was computed later.
#[derive(Debug, Clone, Copy, PartialEq, Eq, Structural)]
pub enum GroupAssignmentCompletion {
    Published,
    Unchanged,
    Stale,
    GroupNotFound,
}

impl DeepView for GroupAssignmentCompletion {
    type V = GroupAssignmentCompletion;

    open spec fn deep_view(&self) -> GroupAssignmentCompletion {
        *self
    }
}

impl Duplicate for GroupAssignmentCompletion {
    fn duplicate(&self) -> (r: Self) {
        *self
    }
}

impl GroupAssignmentCompletion {
    pub fn as_str(self) -> (r: &'static str)
        ensures
            r@ == match self {
                GroupAssignmentCompletion::Published => "published"@,
                GroupAssignmentCompletion::Unchanged => "unchanged"@,
                GroupAssignmentCompletion::Stale => "stale"@,
                GroupAssignmentCompletion::GroupNotFound => "group_not_found"@,
            },
    {
        match self {
            GroupAssignmentCompletion::Published => "published",
            GroupAssignmentCompletion::Unchanged => "unchanged",
            GroupAssignmentCompletion::Stale => "stale",
            GroupAssignmentCompletion::GroupNotFound => "group_not_found",
        }
    }
}

/// An assignment that is to be computed later, and the state of the group that it is for.
#[derive(Debug, Clone, PartialEq, Eq)]
pub struct GroupAssignmentTask {
    pub protocol: AssignmentProtocol,
    pub group_id: String,
    pub group_epoch: i32,
    pub assignment_epoch: i32,
    pub assignment_timestamp: Option<Timestamp>,
}

/// The model of [`GroupAssignmentTask`].
pub struct GroupAssignmentTaskView {
    pub protocol: AssignmentProtocol,
    pub group_id: Seq<char>,
    pub group_epoch: i32,
    pub assignment_epoch: i32,
    pub assignment_timestamp: Option<int>,
}

impl DeepView for GroupAssignmentTask {
    type V = GroupAssignmentTaskView;

    open spec fn deep_view(&self) -> GroupAssignmentTaskView {
        GroupAssignmentTaskView {
            protocol: self.protocol,
            group_id: self.group_id@,
            group_epoch: self.group_epoch,
            assignment_epoch: self.assignment_epoch,
            assignment_timestamp: self.assignment_timestamp.deep_view(),
        }
    }
}

impl Duplicate for GroupAssignmentTask {
    fn duplicate(&self) -> (r: Self) {
        GroupAssignmentTask {
            protocol: self.protocol,
            group_id: self.group_id.clone(),
            group_epoch: self.group_epoch,
            assignment_epoch: self.assignment_epoch,
            assignment_timestamp: self.assignment_timestamp.duplicate(),
        }
    }
}

/// The answer to a heartbeat, and an assignment that is to be computed later.
#[derive(Debug, Clone, PartialEq, Eq)]
pub struct GroupHeartbeatOutcome<T> {
    pub result: T,
    pub assignment_task: Option<GroupAssignmentTask>,
}

/// The map that sends the elements of a set to nothing: a set as an ordered collection.
pub open spec fn as_keys<K>(set: Set<K>) -> Map<K, ()> {
    Map::new(|k: K| set.contains(k), |k: K| ())
}

/// The partitions in a list of assignments.
pub open spec fn assignment_set(list: Seq<ConsumerTopicAssignmentView>) -> Set<(u128, i32)> {
    Set::new(|p: (u128, i32)| exists|i: int| 0 <= i < list.len() && (#[trigger] list[i]).topic_id == p.0 && list[i].partitions.contains(p.1))
}

/// The partitions in a list of owned partitions.
pub open spec fn owned_set(list: Seq<ConsumerOwnedTopicPartitionsView>) -> Set<(u128, i32)> {
    Set::new(|p: (u128, i32)| exists|i: int| 0 <= i < list.len() && (#[trigger] list[i]).topic_id == p.0 && list[i].partitions.contains(p.1))
}

/// Collects the partitions of one topic into a set of partitions.
fn collect_partitions(set: &mut SortedMap<(u128, i32), ()>, topic_id: u128, partitions: &Vec<i32>)
    ensures
        final(set).deep_view() == as_keys(
            old(set).deep_view().dom().union(
                Set::new(|p: (u128, i32)| p.0 == topic_id && partitions.deep_view().contains(p.1)),
            ),
        ),
{
    let ghost before = set.deep_view().dom();
    let ghost all = partitions.deep_view();
    let mut i: usize = 0;
    assert(set.deep_view() =~= as_keys(before.union(Set::new(|p: (u128, i32)| p.0 == topic_id && all.take(0).contains(p.1)))));
    while i < partitions.len()
        invariant
            i <= partitions@.len(),
            all == partitions.deep_view(),
            set.deep_view() == as_keys(before.union(Set::new(|p: (u128, i32)| p.0 == topic_id && all.take(i as int).contains(p.1)))),
        decreases partitions@.len() - i,
    {
        set.insert((topic_id, partitions[i]), ());
        proof {
            assert(all[i as int] == partitions@[i as int]);
            assert(all.take(i + 1) =~= all.take(i as int).push(all[i as int]));
            let wider = all.take(i + 1);
            let a = set.deep_view();
            let b = as_keys(before.union(Set::new(|p: (u128, i32)| p.0 == topic_id && all.take(i + 1).contains(p.1))));
            assert forall|p: (u128, i32)| #[trigger] a.dom().contains(p) == b.dom().contains(p) by {
                let q = p.1;
                if all.take(i as int).contains(q) {
                    let j = choose|j: int| 0 <= j < i && all.take(i as int)[j] == q;
                    assert(all.take(i + 1)[j] == q);
                }
                if q == all[i as int] {
                    assert(all.take(i + 1)[i as int] == q);
                }
                if wider.contains(q) && q != all[i as int] {
                    let j = choose|j: int| 0 <= j < wider.len() && wider[j] == q;
                    assert(all.take(i as int)[j] == q);
                }
            }
            assert(a.dom() =~= b.dom());
            assert(set.deep_view() =~= as_keys(before.union(Set::new(|p: (u128, i32)| p.0 == topic_id && all.take(i + 1).contains(p.1)))));
        }
        i = i + 1;
    }
    assert(all.take(all.len() as int) =~= all);
}

/// The partitions in a list of assignments.
pub fn assigned_partitions(list: &Vec<ConsumerTopicAssignment>) -> (r: SortedMap<(u128, i32), ()>)
    ensures
        r.deep_view() == as_keys(assignment_set(list.deep_view())),
{
    let mut r: SortedMap<(u128, i32), ()> = SortedMap::new();
    let ghost all = list.deep_view();
    let mut i: usize = 0;
    assert(r.deep_view() =~= as_keys(assignment_set(all.take(0))));
    while i < list.len()
        invariant
            i <= list@.len(),
            all == list.deep_view(),
            r.deep_view() == as_keys(assignment_set(all.take(i as int))),
        decreases list@.len() - i,
    {
        let ghost before = r.deep_view().dom();
        collect_partitions(&mut r, list[i].topic_id, &list[i].partitions);
        proof {
            let topic = list@[i as int];
            assert(all[i as int] == topic.deep_view());
            let small = all.take(i as int);
            let large = all.take(i + 1);
            assert forall|p: (u128, i32)| assignment_set(large).contains(p) == (assignment_set(small).contains(p)
                || (p.0 == topic.topic_id && topic.partitions.deep_view().contains(p.1))) by {
                if assignment_set(small).contains(p) {
                    let j = choose|j: int| 0 <= j < small.len() && (#[trigger] small[j]).topic_id == p.0 && small[j].partitions.contains(p.1);
                    assert(large[j] == small[j]);
                }
                if assignment_set(large).contains(p) {
                    let j = choose|j: int| 0 <= j < large.len() && (#[trigger] large[j]).topic_id == p.0 && large[j].partitions.contains(p.1);
                    if j < i {
                        assert(large[j] == small[j]);
                    }
                }
                if p.0 == topic.topic_id && topic.partitions.deep_view().contains(p.1) {
                    assert(large[i as int].topic_id == p.0);
                }
            }
            assert(r.deep_view() =~= as_keys(assignment_set(large)));
        }
        i = i + 1;
    }
    assert(all.take(all.len() as int) =~= all);
    r
}

/// The partitions in a list of owned partitions.
pub fn owned_partition_set(list: &Vec<ConsumerOwnedTopicPartitions>) -> (r: SortedMap<(u128, i32), ()>)
    ensures
        r.deep_view() == as_keys(owned_set(list.deep_view())),
{
    let mut r: SortedMap<(u128, i32), ()> = SortedMap::new();
    let ghost all = list.deep_view();
    let mut i: usize = 0;
    assert(r.deep_view() =~= as_keys(owned_set(all.take(0))));
    while i < list.len()
        invariant
            i <= list@.len(),
            all == list.deep_view(),
            r.deep_view() == as_keys(owned_set(all.take(i as int))),
        decreases list@.len() - i,
    {
        let ghost before = r.deep_view().dom();
        collect_partitions(&mut r, list[i].topic_id, &list[i].partitions);
        proof {
            let topic = list@[i as int];
            assert(all[i as int] == topic.deep_view());
            let small = all.take(i as int);
            let large = all.take(i + 1);
            assert forall|p: (u128, i32)| owned_set(large).contains(p) == (owned_set(small).contains(p) || (p.0 == topic.topic_id
                && topic.partitions.deep_view().contains(p.1))) by {
                if owned_set(small).contains(p) {
                    let j = choose|j: int| 0 <= j < small.len() && (#[trigger] small[j]).topic_id == p.0 && small[j].partitions.contains(p.1);
                    assert(large[j] == small[j]);
                }
                if owned_set(large).contains(p) {
                    let j = choose|j: int| 0 <= j < large.len() && (#[trigger] large[j]).topic_id == p.0 && large[j].partitions.contains(p.1);
                    if j < i {
                        assert(large[j] == small[j]);
                    }
                }
                if p.0 == topic.topic_id && topic.partitions.deep_view().contains(p.1) {
                    assert(large[i as int].topic_id == p.0);
                }
            }
            assert(r.deep_view() =~= as_keys(owned_set(large)));
        }
        i = i + 1;
    }
    assert(all.take(all.len() as int) =~= all);
    r
}

/// Whether one set of partitions lies within another.
pub fn is_subset(a: &SortedMap<(u128, i32), ()>, b: &SortedMap<(u128, i32), ()>) -> (r: bool)
    ensures
        r == a.deep_view().dom().subset_of(b.deep_view().dom()),
{
    let ghost outside = |p: (u128, i32), nothing: ()| !b.deep_view().contains_key(p);
    let is_outside = |p: &(u128, i32), nothing: &()| -> (o: bool)
        ensures o == outside(p.deep_view(), nothing.deep_view())
    {
        !b.contains_key(p)
    };
    let found = a.any(is_outside, Ghost(outside));
    proof {
        if found {
            let p = choose|p: (u128, i32)| #[trigger] a.deep_view().contains_key(p) && outside(p, a.deep_view()[p]);
            assert(a.deep_view().dom().contains(p) && !b.deep_view().dom().contains(p));
        } else {
            assert forall|p: (u128, i32)| #[trigger] a.deep_view().dom().contains(p) implies b.deep_view().dom().contains(p) by {
                assert(a.deep_view().contains_key(p));
            }
        }
    }
    !found
}

/// Whether two sets of partitions are equal.
pub fn is_same_set(a: &SortedMap<(u128, i32), ()>, b: &SortedMap<(u128, i32), ()>) -> (r: bool)
    ensures
        r == (a.deep_view().dom() == b.deep_view().dom()),
{
    let r = is_subset(a, b) && is_subset(b, a);
    proof {
        if r {
            assert(a.deep_view().dom() =~= b.deep_view().dom());
        }
    }
    r
}

/// A hand: for each topic the partitions of it.
pub open spec fn grouped(pairs: Set<(u128, i32)>) -> Map<u128, Map<i32, ()>> {
    Map::new(
        |id: u128| exists|p: i32| pairs.contains((id, p)),
        |id: u128| as_keys(Set::new(|p: i32| pairs.contains((id, p)))),
    )
}

/// A hand with one more partition.
pub open spec fn with_pair(hand: Map<u128, Map<i32, ()>>, id: u128, p: i32) -> Map<u128, Map<i32, ()>> {
    hand.insert(
        id,
        (if hand.contains_key(id) {
            hand[id]
        } else {
            Map::empty()
        }).insert(p, ()),
    )
}

/// Adds a partition to a hand.
pub fn add_pair(hand: &mut SortedMap<u128, SortedMap<i32, ()>>, id: u128, p: i32)
    ensures
        final(hand).deep_view() == with_pair(old(hand).deep_view(), id, p),
{
    let ghost before = hand.deep_view();
    let mut partitions = match hand.remove(&id) {
        Some(partitions) => partitions,
        None => SortedMap::new(),
    };
    partitions.insert(p, ());
    let ghost after = partitions.deep_view();
    hand.insert(id, partitions);
    assert(before.remove(id).insert(id, after) =~= before.insert(id, after));
}

proof fn grouping_grows(pairs: Set<(u128, i32)>, id: u128, p: i32)
    ensures
        grouped(pairs.insert((id, p))) == with_pair(grouped(pairs), id, p),
{
    let a = grouped(pairs.insert((id, p)));
    let b = with_pair(grouped(pairs), id, p);
    assert forall|k: u128| a.dom().contains(k) == b.dom().contains(k) by {
        if grouped(pairs).contains_key(k) {
            let q = choose|q: i32| pairs.contains((k, q));
            assert(pairs.insert((id, p)).contains((k, q)));
        }
        if k == id {
            assert(pairs.insert((id, p)).contains((id, p)));
        }
        if a.dom().contains(k) && k != id {
            let q = choose|q: i32| pairs.insert((id, p)).contains((k, q));
            assert(pairs.contains((k, q)));
        }
    }
    assert(a.dom() =~= b.dom());
    assert forall|k: u128| #[trigger] a.dom().contains(k) implies a[k] == b[k] by {
        if k == id && !grouped(pairs).contains_key(id) {
            assert forall|q: i32| !pairs.contains((id, q)) by {}
        }
        assert(a[k] =~= b[k]);
    }
    assert(a =~= b);
}

/// Groups partitions by topic.
pub fn group_by_topic(pairs: &SortedMap<(u128, i32), ()>) -> (r: SortedMap<u128, SortedMap<i32, ()>>)
    ensures
        r.deep_view() == grouped(pairs.deep_view().dom()),
{
    let keys = pairs.keys();
    let ghost all = keys.deep_view();
    let mut r: SortedMap<u128, SortedMap<i32, ()>> = SortedMap::new();
    let mut i: usize = 0;
    assert(r.deep_view() =~= grouped(all.take(0).to_set()));
    while i < keys.len()
        invariant
            i <= keys@.len(),
            all == keys.deep_view(),
            r.deep_view() == grouped(all.take(i as int).to_set()),
        decreases keys@.len() - i,
    {
        let (id, p) = keys[i];
        add_pair(&mut r, id, p);
        proof {
            assert(all[i as int] == (id, p));
            grouping_grows(all.take(i as int).to_set(), id, p);
            assert(all.take(i + 1) =~= all.take(i as int).push((id, p)));
            assert forall|q: (u128, i32)| all.take(i + 1).to_set().contains(q) == all.take(i as int).to_set().insert((id, p)).contains(q) by {
                if all.take(i as int).contains(q) {
                    let j = choose|j: int| 0 <= j < i && all.take(i as int)[j] == q;
                    assert(all.take(i + 1)[j] == q);
                }
                if q == (id, p) {
                    assert(all.take(i + 1)[i as int] == q);
                }
            }
            assert(all.take(i + 1).to_set() =~= all.take(i as int).to_set().insert((id, p)));
        }
        i = i + 1;
    }
    assert(all.take(all.len() as int) =~= all);
    r
}

/// A hand as a list, in the order of the topic ids, each topic's partitions in order.
pub open spec fn hand_list(hand: Map<u128, Map<i32, ()>>, names: Map<u128, Seq<char>>) -> Seq<ConsumerTopicAssignmentView> {
    let ids = sorted_map::sorted_keys::<u128>(hand.dom());
    Seq::new(
        ids.len(),
        |i: int|
            ConsumerTopicAssignmentView {
                topic_id: ids[i],
                topic_name: if names.contains_key(ids[i]) {
                    names[ids[i]]
                } else {
                    Seq::empty()
                },
                partitions: sorted_map::sorted_keys::<i32>(hand[ids[i]].dom()),
            },
    )
}

/// Lists a hand.
pub fn list_hand(hand: &SortedMap<u128, SortedMap<i32, ()>>, names: &SortedMap<u128, String>) -> (r: Vec<ConsumerTopicAssignment>)
    ensures
        r.deep_view() == hand_list(hand.deep_view(), names.deep_view()),
        sorted_map::lists_in_order::<u128>(sorted_map::sorted_keys::<u128>(hand.deep_view().dom()), hand.deep_view().dom()),
{
    let ids = hand.keys();
    let ghost all = ids.deep_view();
    let ghost want = hand_list(hand.deep_view(), names.deep_view());
    let mut r: Vec<ConsumerTopicAssignment> = Vec::new();
    let mut i: usize = 0;
    while i < ids.len()
        invariant
            i <= ids@.len(),
            all == ids.deep_view(),
            all == sorted_map::sorted_keys::<u128>(hand.deep_view().dom()),
            all.to_set() == hand.deep_view().dom(),
            want == hand_list(hand.deep_view(), names.deep_view()),
            r@.len() == i,
            forall|j: int| 0 <= j < i ==> (#[trigger] r@[j]).deep_view() == want[j],
        decreases ids@.len() - i,
    {
        let id: u128 = ids[i];
        proof {
            assert(all[i as int] == id);
            assert(all.contains(id));
            assert(hand.deep_view().dom().contains(id));
        }
        let partitions = match hand.get(&id) {
            Some(partitions) => partitions.keys(),
            None => Vec::new(),
        };
        let topic_name = match names.get(&id) {
            Some(name) => name.clone(),
            None => String::new(),
        };
        r.push(ConsumerTopicAssignment { topic_id: id, topic_name, partitions });
        i = i + 1;
    }
    assert(r.deep_view() =~= want);
    r
}

/// The names of topics by their ids; of two topics with one id the later one counts.
pub open spec fn names_of(topics: Seq<TopicInfoView>) -> Map<u128, Seq<char>>
    decreases topics.len(),
{
    if topics.len() == 0 {
        Map::empty()
    } else {
        names_of(topics.drop_last()).insert(topics.last().id, topics.last().name)
    }
}

/// The names of topics by their ids.
pub fn topic_names(topics: &[TopicInfo]) -> (r: SortedMap<u128, String>)
    ensures
        r.deep_view() == names_of(sorted_map::models(topics@)),
{
    let ghost all = sorted_map::models(topics@);
    let mut r: SortedMap<u128, String> = SortedMap::new();
    let mut i: usize = 0;
    assert(all.take(0) =~= Seq::<TopicInfoView>::empty());
    while i < topics.len()
        invariant
            i <= topics@.len(),
            all == sorted_map::models(topics@),
            r.deep_view() == names_of(all.take(i as int)),
        decreases topics@.len() - i,
    {
        r.insert(topics[i].id, topics[i].name.clone());
        proof {
            assert(all.take(i + 1).drop_last() =~= all.take(i as int));
            assert(all.take(i + 1).last() == topics@[i as int].deep_view());
        }
        i = i + 1;
    }
    assert(all.take(all.len() as int) =~= all);
    r
}

/// The names of the topics in a list of assignments, by the topics' ids.
pub open spec fn names_in(list: Seq<ConsumerTopicAssignmentView>) -> Map<u128, Seq<char>>
    decreases list.len(),
{
    if list.len() == 0 {
        Map::empty()
    } else {
        names_in(list.drop_last()).insert(list.last().topic_id, list.last().topic_name)
    }
}

/// The names of the topics in a list of assignments, by the topics' ids.
pub fn assignment_names(list: &Vec<ConsumerTopicAssignment>) -> (r: SortedMap<u128, String>)
    ensures
        r.deep_view() == names_in(list.deep_view()),
{
    let ghost all = list.deep_view();
    let mut r: SortedMap<u128, String> = SortedMap::new();
    let mut i: usize = 0;
    assert(all.take(0) =~= Seq::<ConsumerTopicAssignmentView>::empty());
    while i < list.len()
        invariant
            i <= list@.len(),
            all == list.deep_view(),
            r.deep_view() == names_in(all.take(i as int)),
        decreases list@.len() - i,
    {
        r.insert(list[i].topic_id, list[i].topic_name.clone());
        proof {
            assert(all.take(i + 1).drop_last() =~= all.take(i as int));
            assert(all.take(i + 1).last() == list@[i as int].deep_view());
        }
        i = i + 1;
    }
    assert(all.take(all.len() as int) =~= all);
    r
}

} // verus!
