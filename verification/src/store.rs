//! Everything that the store holds, and what keeps groups of different protocols apart.

use crate::classic_barrier;
use crate::classic_groups;
use crate::classic_join;
use crate::classic_join::{ClassicGroups, ClassicGroupsView, JoinRequest, JoinRequestView};
use crate::consumer_assignor;
use crate::consumer_groups;
use crate::consumer_groups::expire_members;
use crate::consumer_heartbeat;
use crate::consumer_queries;
use crate::consumer_types::{
    ConsumerGroupDescription, ConsumerGroupDescriptionView, ConsumerGroupHeartbeat, ConsumerGroupHeartbeatResult,
    ConsumerGroupHeartbeatResultView, ConsumerGroupHeartbeatView, ConsumerGroupState, ConsumerGroupStateView,
    ConsumerMemberStateView, GroupAssignmentCompletion, GroupAssignmentTask, GroupAssignmentTaskView,
    GroupHeartbeatOutcome,
};
use crate::error;
use crate::error::{ControlError, ControlErrorView};
use crate::groups::{GroupMemberView, JoinGroupResult, JoinGroupResultView};
use crate::log_types::{LogState, LogStateView, TopicConfig, TopicConfigView};
use crate::sorted_map;
use crate::sorted_map::{Duplicate, SortedMap};
use crate::text::same_text;
use crate::time::Timestamp;
use crate::topics;
use vstd::prelude::*;

verus! {

/// When a member of a streams group was last heard of.
pub struct StreamsMember {
    pub last_heartbeat: Timestamp,
    pub session_timeout_ms: i32,
}

/// The model of [`StreamsMember`].
pub struct StreamsMemberView {
    pub last_heartbeat: int,
    pub session_timeout_ms: i32,
}

impl DeepView for StreamsMember {
    type V = StreamsMemberView;

    open spec fn deep_view(&self) -> StreamsMemberView {
        StreamsMemberView {
            last_heartbeat: self.last_heartbeat.deep_view(),
            session_timeout_ms: self.session_timeout_ms,
        }
    }
}

impl Duplicate for StreamsMember {
    fn duplicate(&self) -> (r: Self) {
        StreamsMember {
            last_heartbeat: self.last_heartbeat,
            session_timeout_ms: self.session_timeout_ms,
        }
    }
}

/// The topics that a part of a streams application reads: by name, between its parts, and by pattern.
#[derive(Debug, Clone, PartialEq, Eq)]
pub struct StreamsSubtopology {
    pub source_topics: Vec<String>,
    pub repartition_source_topics: Vec<String>,
    pub source_topic_regex: Vec<String>,
}

/// The model of [`StreamsSubtopology`].
pub struct StreamsSubtopologyView {
    pub source_topics: Seq<Seq<char>>,
    pub repartition_source_topics: Seq<Seq<char>>,
    pub source_topic_regex: Seq<Seq<char>>,
}

impl DeepView for StreamsSubtopology {
    type V = StreamsSubtopologyView;

    open spec fn deep_view(&self) -> StreamsSubtopologyView {
        StreamsSubtopologyView {
            source_topics: self.source_topics.deep_view(),
            repartition_source_topics: self.repartition_source_topics.deep_view(),
            source_topic_regex: self.source_topic_regex.deep_view(),
        }
    }
}

impl Duplicate for StreamsSubtopology {
    fn duplicate(&self) -> (r: Self) {
        StreamsSubtopology {
            source_topics: self.source_topics.duplicate(),
            repartition_source_topics: self.repartition_source_topics.duplicate(),
            source_topic_regex: self.source_topic_regex.duplicate(),
        }
    }
}

/// What other groups and the logs need to know of a streams group.
pub struct StreamsGroup {
    pub members: SortedMap<String, StreamsMember>,
    pub subtopologies: Vec<StreamsSubtopology>,
}

/// The model of [`StreamsGroup`].
pub struct StreamsGroupView {
    pub members: Map<Seq<char>, StreamsMemberView>,
    pub subtopologies: Seq<StreamsSubtopologyView>,
}

impl DeepView for StreamsGroup {
    type V = StreamsGroupView;

    open spec fn deep_view(&self) -> StreamsGroupView {
        StreamsGroupView {
            members: self.members.deep_view(),
            subtopologies: self.subtopologies.deep_view(),
        }
    }
}

impl Duplicate for StreamsGroup {
    fn duplicate(&self) -> (r: Self) {
        StreamsGroup {
            members: self.members.duplicate(),
            subtopologies: self.subtopologies.duplicate(),
        }
    }
}

/// What a streams group makes of a member: the group without the members whose sessions are over, and
/// what it has against the member, if anything.
pub struct StreamsCheck {
    pub group: StreamsGroup,
    pub refusal: Option<ControlError>,
}

/// The model of [`StreamsCheck`].
pub struct StreamsCheckView {
    pub group: StreamsGroupView,
    pub refusal: Option<ControlErrorView>,
}

impl DeepView for StreamsCheck {
    type V = StreamsCheckView;

    open spec fn deep_view(&self) -> StreamsCheckView {
        StreamsCheckView {
            group: self.group.deep_view(),
            refusal: self.refusal.deep_view(),
        }
    }
}

/// The partitions of one topic that a member of a share group is assigned.
#[derive(Debug, Clone, PartialEq, Eq)]
pub struct ShareTopicAssignment {
    pub topic_id: u128,
    pub partitions: Vec<i32>,
}

/// The model of [`ShareTopicAssignment`].
pub struct ShareTopicAssignmentView {
    pub topic_id: u128,
    pub partitions: Seq<i32>,
}

impl DeepView for ShareTopicAssignment {
    type V = ShareTopicAssignmentView;

    open spec fn deep_view(&self) -> ShareTopicAssignmentView {
        ShareTopicAssignmentView {
            topic_id: self.topic_id,
            partitions: self.partitions.deep_view(),
        }
    }
}

impl Duplicate for ShareTopicAssignment {
    fn duplicate(&self) -> (r: Self) {
        ShareTopicAssignment {
            topic_id: self.topic_id,
            partitions: self.partitions.duplicate(),
        }
    }
}

/// A member of a share group.
pub struct ShareMember {
    pub assignment: Vec<ShareTopicAssignment>,
}

/// The model of [`ShareMember`].
pub struct ShareMemberView {
    pub assignment: Seq<ShareTopicAssignmentView>,
}

impl DeepView for ShareMember {
    type V = ShareMemberView;

    open spec fn deep_view(&self) -> ShareMemberView {
        ShareMemberView {
            assignment: self.assignment.deep_view(),
        }
    }
}

impl Duplicate for ShareMember {
    fn duplicate(&self) -> (r: Self) {
        ShareMember {
            assignment: self.assignment.duplicate(),
        }
    }
}

/// What other groups and the logs need to know of a share group.
pub struct ShareGroup {
    pub members: SortedMap<String, ShareMember>,
}

/// The model of [`ShareGroup`].
pub struct ShareGroupView {
    pub members: Map<Seq<char>, ShareMemberView>,
}

impl DeepView for ShareGroup {
    type V = ShareGroupView;

    open spec fn deep_view(&self) -> ShareGroupView {
        ShareGroupView {
            members: self.members.deep_view(),
        }
    }
}

impl Duplicate for ShareGroup {
    fn duplicate(&self) -> (r: Self) {
        ShareGroup {
            members: self.members.duplicate(),
        }
    }
}

/// Logs and groups.
pub struct Store {
    pub log: LogState,
    pub classic: ClassicGroups,
    pub consumer_groups: SortedMap<String, ConsumerGroupState>,
    pub streams_groups: SortedMap<String, StreamsGroup>,
    pub share_groups: SortedMap<String, ShareGroup>,
}

/// The model of [`Store`].
pub struct StoreView {
    pub log: LogStateView,
    pub classic: ClassicGroupsView,
    pub consumer_groups: Map<Seq<char>, ConsumerGroupStateView>,
    pub streams_groups: Map<Seq<char>, StreamsGroupView>,
    pub share_groups: Map<Seq<char>, ShareGroupView>,
}

impl DeepView for Store {
    type V = StoreView;

    open spec fn deep_view(&self) -> StoreView {
        StoreView {
            log: self.log.deep_view(),
            classic: self.classic.deep_view(),
            consumer_groups: self.consumer_groups.deep_view(),
            streams_groups: self.streams_groups.deep_view(),
            share_groups: self.share_groups.deep_view(),
        }
    }
}

/// A store that holds nothing.
pub open spec fn empty_store(default_config: TopicConfigView) -> StoreView {
    StoreView {
        log: topics::empty_log(default_config),
        classic: ClassicGroupsView { groups: Map::empty(), pending_members: Map::empty() },
        consumer_groups: Map::empty(),
        streams_groups: Map::empty(),
        share_groups: Map::empty(),
    }
}

/// Whether a group of that id shares or processes streams.
pub open spec fn is_other(s: StoreView, group_id: Seq<char>) -> bool {
    s.share_groups.contains_key(group_id) || s.streams_groups.contains_key(group_id)
}

/// Whether a consumer group of that id still has members.
pub open spec fn consumers_remain(s: StoreView, group_id: Seq<char>, now: int) -> bool {
    s.consumer_groups.contains_key(group_id) && consumer_groups::without_silent(s.consumer_groups[group_id], now).members != Map::<
        Seq<char>,
        ConsumerMemberStateView,
    >::empty()
}

/// Whether a classic group of that id still has members.
pub open spec fn classics_remain(s: StoreView, group_id: Seq<char>, now: int) -> bool {
    s.classic.groups.contains_key(group_id) && classic_groups::without_expired(s.classic.groups[group_id], now).members != Map::<
        Seq<char>,
        GroupMemberView,
    >::empty()
}

/// Whether an answer to a request to join means that the group is now a classic one: the member was
/// let in, or was given the id under which it has to ask again.
pub open spec fn takes_over(answer: Result<JoinGroupResultView, ControlErrorView>) -> bool {
    answer is Ok || answer->Err_0 is MemberIdRequired
}

/// The state after a request to join a classic group, where the groups of that kind would be `after`
/// and the request would be answered `answer`. An empty consumer group of that id gives way.
pub open spec fn classic_entered(
    s: StoreView,
    group_id: Seq<char>,
    now: int,
    after: ClassicGroupsView,
    answer: Result<JoinGroupResultView, ControlErrorView>,
) -> (StoreView, Result<JoinGroupResultView, ControlErrorView>) {
    if is_other(s, group_id) || consumers_remain(s, group_id, now) {
        (s, Err(ControlErrorView::GroupProtocolMismatch(group_id)))
    } else {
        (
            StoreView {
                classic: after,
                consumer_groups: if takes_over(answer) {
                    s.consumer_groups.remove(group_id)
                } else {
                    s.consumer_groups
                },
                ..s
            },
            answer,
        )
    }
}

/// The state after a request to join in one step.
pub open spec fn joined(s: StoreView, request: JoinRequestView, now: int, fresh: Seq<char>) -> (
    StoreView,
    Result<JoinGroupResultView, ControlErrorView>,
) {
    let (after, answer) = classic_join::joined(s.classic, request, now, fresh);
    if !classic_join::complete(request) {
        (s, answer)
    } else {
        classic_entered(s, request.group_id, now, after, answer)
    }
}

/// The state after a request to join behind a barrier.
pub open spec fn begun(s: StoreView, request: JoinRequestView, now: int, fresh: Seq<char>, fresh_rebalance: u128) -> (
    StoreView,
    Result<JoinGroupResultView, ControlErrorView>,
) {
    let (after, answer) = classic_barrier::begun(s.classic, request, now, fresh, fresh_rebalance);
    if !classic_barrier::complete(request) {
        (s, answer)
    } else {
        classic_entered(s, request.group_id, now, after, answer)
    }
}

/// The classic groups without the one of an id, and without ids handed out for it.
pub open spec fn without_classic(s: ClassicGroupsView, group_id: Seq<char>) -> ClassicGroupsView {
    ClassicGroupsView {
        groups: s.groups.remove(group_id),
        pending_members: sorted_map::filtered(
            s.pending_members,
            |id: (Seq<char>, Seq<char>), lapses: int| id.0 != group_id,
        ),
    }
}

/// The state after a heartbeat of a consumer, and the answer. An empty classic group of that id
/// gives way.
pub open spec fn consumer_heard(s: StoreView, request: ConsumerGroupHeartbeatView, now: int, defer: bool, fresh: Seq<char>) -> (
    StoreView,
    Result<(ConsumerGroupHeartbeatResultView, Option<GroupAssignmentTaskView>), ControlErrorView>,
) {
    let id = request.group_id;
    if is_other(s, id) || classics_remain(s, id, now) {
        (s, Err(ControlErrorView::GroupProtocolMismatch(id)))
    } else {
        let known = if s.consumer_groups.contains_key(id) {
            Some(s.consumer_groups[id])
        } else {
            None
        };
        match consumer_heartbeat::beat(known, request, topics::listed_topics(s.log, None), now, defer, fresh) {
            Err(refusal) => (s, Err(refusal)),
            Ok((group, result, task)) => (
                StoreView {
                    classic: without_classic(s.classic, id),
                    consumer_groups: s.consumer_groups.insert(id, group),
                    ..s
                },
                Ok((result, task)),
            ),
        }
    }
}

/// The state after an assignment was computed for a consumer group, and the outcome.
pub open spec fn assignment_completed(s: StoreView, task: GroupAssignmentTaskView, now: int) -> (
    StoreView,
    Result<GroupAssignmentCompletion, ControlErrorView>,
) {
    let id = task.group_id;
    if !s.consumer_groups.contains_key(id) {
        (s, Ok(GroupAssignmentCompletion::GroupNotFound))
    } else {
        match consumer_heartbeat::completed(s.consumer_groups[id], topics::listed_topics(s.log, None), task, now) {
            Err(refusal) => (s, Err(refusal)),
            Ok((group, completion)) => (
                StoreView { consumer_groups: s.consumer_groups.insert(id, group), ..s },
                Ok(completion),
            ),
        }
    }
}

/// What is told of the consumer groups of a list, by id.
pub open spec fn consumers_described(s: StoreView, ids: Seq<Seq<char>>) -> Map<Seq<char>, ConsumerGroupDescriptionView> {
    Map::new(
        |id: Seq<char>| ids.contains(id) && s.consumer_groups.contains_key(id),
        |id: Seq<char>| consumer_queries::description(s.consumer_groups[id]),
    )
}

impl Store {
    /// A store that holds nothing, and the configuration of topics that have none of their own.
    pub fn new(default_config: TopicConfig) -> (r: Self)
        ensures
            r.deep_view() == empty_store(default_config.deep_view()),
    {
        Store {
            log: LogState::new(default_config),
            classic: ClassicGroups::new(),
            consumer_groups: SortedMap::new(),
            streams_groups: SortedMap::new(),
            share_groups: SortedMap::new(),
        }
    }

    /// Whether a classic group may take an id.
    fn bars_classic(&self, group_id: &String, now: Timestamp) -> (r: bool)
        ensures
            r == (is_other(self.deep_view(), group_id@) || consumers_remain(self.deep_view(), group_id@, now.deep_view())),
    {
        if self.share_groups.contains_key(group_id) || self.streams_groups.contains_key(group_id) {
            return true;
        }
        match self.consumer_groups.get(group_id) {
            None => false,
            Some(group) => {
                let mut left = group.duplicate();
                expire_members(&mut left, now);
                !left.members.is_empty()
            },
        }
    }

    /// Whether a consumer group may take an id.
    fn bars_consumers(&self, group_id: &String, now: Timestamp) -> (r: bool)
        ensures
            r == (is_other(self.deep_view(), group_id@) || classics_remain(self.deep_view(), group_id@, now.deep_view())),
    {
        if self.share_groups.contains_key(group_id) || self.streams_groups.contains_key(group_id) {
            return true;
        }
        match self.classic.groups.get(group_id) {
            None => false,
            Some(group) => {
                let mut left = group.duplicate();
                left.remove_expired_members(now);
                !left.members.is_empty()
            },
        }
    }

    /// Lets an empty consumer group give way to a classic one.
    fn yield_consumers(&mut self, group_id: &String, answer: &Result<JoinGroupResult, ControlError>)
        ensures
            final(self).deep_view() == (StoreView {
                consumer_groups: if takes_over(error::outcome(*answer)) {
                    old(self).deep_view().consumer_groups.remove(group_id@)
                } else {
                    old(self).deep_view().consumer_groups
                },
                ..old(self).deep_view()
            }),
    {
        let taken = match answer {
            Ok(_) => true,
            Err(ControlError::MemberIdRequired { .. }) => true,
            Err(_) => false,
        };
        if taken {
            self.consumer_groups.remove(group_id);
        }
    }

    /// Lets a member join a classic group in one step; `fresh` is the text from which a new member
    /// id is made.
    pub fn join_group(&mut self, request: &JoinRequest, now: Timestamp, fresh: &str) -> (r: Result<JoinGroupResult, ControlError>)
        requires
            classic_join::generations_left(old(self).deep_view().classic, request.deep_view().group_id, 2),
        ensures
            (final(self).deep_view(), error::outcome(r)) == joined(old(self).deep_view(), request.deep_view(), now.deep_view(), fresh@),
    {
        assert(request.deep_view().protocols.len() == request.protocols@.len());
        let complete = !request.group_id.as_str().is_empty() && !request.protocol_type.as_str().is_empty() && request.protocols.len() > 0
            && request.session_timeout_ms > 0;
        if complete && self.bars_classic(&request.group_id, now) {
            return Err(ControlError::GroupProtocolMismatch(request.group_id.clone()));
        }
        let answer = self.classic.join_group(request, now, fresh);
        if complete {
            self.yield_consumers(&request.group_id, &answer);
        }
        answer
    }

    /// Lets a member join a classic group behind a barrier; `fresh` is the text from which a new
    /// member id is made, and `fresh_rebalance` the id of a rebalance that may begin.
    pub fn begin_join_group(&mut self, request: &JoinRequest, now: Timestamp, fresh: &str, fresh_rebalance: u128) -> (r: Result<
        JoinGroupResult,
        ControlError,
    >)
        requires
            classic_join::generations_left(old(self).deep_view().classic, request.deep_view().group_id, 1),
        ensures
            (final(self).deep_view(), error::outcome(r)) == begun(
                old(self).deep_view(),
                request.deep_view(),
                now.deep_view(),
                fresh@,
                fresh_rebalance,
            ),
    {
        assert(request.deep_view().protocols.len() == request.protocols@.len());
        let complete = !request.group_id.as_str().is_empty() && !request.protocol_type.as_str().is_empty() && request.protocols.len() > 0
            && request.session_timeout_ms > 0 && request.rebalance_timeout_ms > 0 && request.initial_rebalance_delay_ms >= 0
            && request.max_size > 0;
        if complete && self.bars_classic(&request.group_id, now) {
            return Err(ControlError::GroupProtocolMismatch(request.group_id.clone()));
        }
        let answer = self.classic.begin_join_group(request, now, fresh, fresh_rebalance);
        if complete {
            self.yield_consumers(&request.group_id, &answer);
        }
        answer
    }

    /// Lets an empty classic group give way to a consumer group.
    fn yield_classic(&mut self, group_id: &String)
        ensures
            final(self).deep_view() == (StoreView {
                classic: without_classic(old(self).deep_view().classic, group_id@),
                ..old(self).deep_view()
            }),
    {
        self.classic.groups.remove(group_id);
        let ghost g = group_id@;
        let ghost keep = |id: (Seq<char>, Seq<char>), lapses: int| id.0 != g;
        let test = |id: &(String, String), lapses: &Timestamp| -> (b: bool)
            ensures b == keep(id.deep_view(), lapses.deep_view())
        {
            !same_text(id.0.as_str(), group_id.as_str())
        };
        self.classic.pending_members.retain(test, Ghost(keep));
        assert(self.classic.pending_members.deep_view() =~= without_classic(old(self).deep_view().classic, g).pending_members);
    }

    /// Takes a heartbeat of a consumer.
    fn hear_consumer(&mut self, heartbeat: ConsumerGroupHeartbeat, now: Timestamp, defer: bool, fresh: &str) -> (r: Result<
        (ConsumerGroupHeartbeatResult, Option<GroupAssignmentTask>),
        ControlError,
    >)
        requires
            consumer_assignor::countable(topics::listed_topics(old(self).deep_view().log, None)),
        ensures
            (final(self).deep_view(), error::outcome(r)) == consumer_heard(
                old(self).deep_view(),
                heartbeat.deep_view(),
                now.deep_view(),
                defer,
                fresh@,
            ),
    {
        let group_id = heartbeat.group_id.clone();
        if self.bars_consumers(&group_id, now) {
            return Err(ControlError::GroupProtocolMismatch(group_id));
        }
        let current: Option<ConsumerGroupState> = match self.consumer_groups.get(&group_id) {
            Some(group) => Some(group.duplicate()),
            None => None,
        };
        let topics = self.log.topics(None);
        assert(sorted_map::models(topics@) =~= topics.deep_view());
        let (group, result, task) = match consumer_heartbeat::heartbeat_inner(current, heartbeat, topics.as_slice(), now, defer, fresh) {
            Ok(beat) => beat,
            Err(refusal) => return Err(refusal),
        };
        self.yield_classic(&group_id);
        self.consumer_groups.insert(group_id, group);
        Ok((result, task))
    }

    /// Takes a heartbeat of a consumer and computes the assignment at once; `fresh` is the text of a
    /// new member id.
    pub fn consumer_group_heartbeat(&mut self, heartbeat: ConsumerGroupHeartbeat, now: Timestamp, fresh: &str) -> (r: Result<
        ConsumerGroupHeartbeatResult,
        ControlError,
    >)
        requires
            consumer_assignor::countable(topics::listed_topics(old(self).deep_view().log, None)),
        ensures
            ({
                let (after, outcome) = consumer_heard(old(self).deep_view(), heartbeat.deep_view(), now.deep_view(), false, fresh@);
                final(self).deep_view() == after && error::outcome(r) == (match outcome {
                    Ok((result, task)) => Ok(result),
                    Err(refusal) => Err(refusal),
                })
            }),
    {
        match self.hear_consumer(heartbeat, now, false, fresh) {
            Ok((result, _)) => Ok(result),
            Err(refusal) => Err(refusal),
        }
    }

    /// Takes a heartbeat of a consumer and leaves the assignment to be computed later.
    pub fn consumer_group_heartbeat_deferred(&mut self, heartbeat: ConsumerGroupHeartbeat, now: Timestamp, fresh: &str) -> (r: Result<
        GroupHeartbeatOutcome<ConsumerGroupHeartbeatResult>,
        ControlError,
    >)
        requires
            consumer_assignor::countable(topics::listed_topics(old(self).deep_view().log, None)),
        ensures
            ({
                let (after, outcome) = consumer_heard(old(self).deep_view(), heartbeat.deep_view(), now.deep_view(), true, fresh@);
                final(self).deep_view() == after && match outcome {
                    Ok((result, task)) => r is Ok && r->Ok_0.result.deep_view() == result && r->Ok_0.assignment_task.deep_view() == task,
                    Err(refusal) => r is Err && r->Err_0.deep_view() == refusal,
                }
            }),
    {
        match self.hear_consumer(heartbeat, now, true, fresh) {
            Ok((result, assignment_task)) => Ok(GroupHeartbeatOutcome { result, assignment_task }),
            Err(refusal) => Err(refusal),
        }
    }

    /// Computes an assignment of a consumer group that was left for later.
    pub fn complete_group_assignment(&mut self, task: &GroupAssignmentTask, now: Timestamp) -> (r: Result<
        GroupAssignmentCompletion,
        ControlError,
    >)
        requires
            consumer_assignor::countable(topics::listed_topics(old(self).deep_view().log, None)),
        ensures
            ({
                let (after, outcome) = assignment_completed(old(self).deep_view(), task.deep_view(), now.deep_view());
                final(self).deep_view() == after && match outcome {
                    Ok(completion) => r == Ok::<GroupAssignmentCompletion, ControlError>(completion),
                    Err(refusal) => r is Err && r->Err_0.deep_view() == refusal,
                }
            }),
    {
        let ghost s = self.deep_view();
        let topics = self.log.topics(None);
        assert(sorted_map::models(topics@) =~= topics.deep_view());
        let ghost id = task.group_id@;
        match self.consumer_groups.remove(&task.group_id) {
            None => {
                assert(s.consumer_groups.remove(id) =~= s.consumer_groups);
                Ok(GroupAssignmentCompletion::GroupNotFound)
            },
            Some(mut group) => {
                let ghost before = group.deep_view();
                let outcome = consumer_heartbeat::complete_assignment(&mut group, topics.as_slice(), task, now);
                let ghost after = group.deep_view();
                self.consumer_groups.insert(task.group_id.clone(), group);
                assert(s.consumer_groups.remove(id).insert(id, after) =~= s.consumer_groups.insert(id, after));
                assert(s.consumer_groups.insert(id, before) =~= s.consumer_groups);
                outcome
            },
        }
    }

    /// Describes consumer groups.
    pub fn describe_consumer_groups(&self, group_ids: &[String]) -> (r: SortedMap<String, ConsumerGroupDescription>)
        ensures
            r.deep_view() == consumers_described(self.deep_view(), sorted_map::models(group_ids@)),
    {
        let ghost s = self.deep_view();
        let ghost all = sorted_map::models(group_ids@);
        let mut r: SortedMap<String, ConsumerGroupDescription> = SortedMap::new();
        let mut i: usize = 0;
        while i < group_ids.len()
            invariant
                i <= group_ids@.len(),
                s == self.deep_view(),
                all == sorted_map::models(group_ids@),
                forall|id: Seq<char>| #[trigger] r.deep_view().contains_key(id) <==> all.take(i as int).to_set().contains(id)
                    && s.consumer_groups.contains_key(id),
                forall|id: Seq<char>| #[trigger] r.deep_view().contains_key(id)
                    ==> r.deep_view()[id] == consumer_queries::description(s.consumer_groups[id]),
            decreases group_ids@.len() - i,
        {
            proof {
                assert(all[i as int] == group_ids@[i as int]@);
                sorted_map::prefix_grows(all, i as int);
            }
            if let Some(group) = self.consumer_groups.get(&group_ids[i]) {
                r.insert(group_ids[i].clone(), consumer_queries::describe(group));
            }
            i = i + 1;
        }
        assert(all.take(i as int) =~= all);
        assert(r.deep_view() =~= consumers_described(s, all));
        r
    }
}

} // verus!
