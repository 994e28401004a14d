//! The heartbeat of a member of a consumer group.

use crate::assignment_interval;
use crate::assignment_interval::can_compute;
use crate::consumer_assignor;
use crate::consumer_assignor::validate_assignor;
use crate::consumer_groups;
use crate::consumer_groups::{
    expire_members, find_instance_owner, find_rival, joining_member, refresh_target_assignment, update_member,
    update_regex_refresh_state, uses_pattern, validate_request, AWAY,
};
use crate::consumer_reconcile;
use crate::consumer_reconcile::reconcile_member;
use crate::consumer_types;
use crate::consumer_types::{
    assigned_partitions, is_subset, owned_partition_set, AssignmentProtocol, ConsumerGroupHeartbeat,
    ConsumerGroupHeartbeatResult, ConsumerGroupHeartbeatResultView, ConsumerGroupHeartbeatView, ConsumerGroupState,
    ConsumerGroupStateView, ConsumerMemberState, ConsumerMemberStateView, GroupAssignmentCompletion,
    GroupAssignmentTask, GroupAssignmentTaskView,
};
use crate::error;
use crate::error::{ControlError, ControlErrorView};
use crate::member_epoch;
use crate::partition::{TopicInfo, TopicInfoView};
use crate::sorted_map;
use crate::sorted_map::Duplicate;
use crate::text::{join_texts, same_text};
use crate::time::Timestamp;
use vstd::prelude::*;

verus! {

/// What a heartbeat leads to: the group, the answer, and an assignment that is to be computed later.
pub type Beat = Result<(ConsumerGroupStateView, ConsumerGroupHeartbeatResultView, Option<GroupAssignmentTaskView>), ControlErrorView>;

/// The assignment that is to be computed for a group, and the state that it is computed for.
pub open spec fn task_for(group: ConsumerGroupStateView) -> GroupAssignmentTaskView {
    GroupAssignmentTaskView {
        protocol: AssignmentProtocol::Consumer,
        group_id: group.group_id,
        group_epoch: group.group_epoch,
        assignment_epoch: group.assignment_epoch,
        assignment_timestamp: group.assignment_timestamp,
    }
}

/// The group in its next epoch where something has changed.
pub open spec fn bumped(group: ConsumerGroupStateView, changed: bool) -> ConsumerGroupStateView {
    if changed {
        ConsumerGroupStateView { group_epoch: consumer_groups::next_epoch(group.group_epoch), ..group }
    } else {
        group
    }
}

/// The group and the task when its target assignment is left to be computed later.
pub open spec fn deferred(group: ConsumerGroupStateView, changed: bool, now: int) -> (ConsumerGroupStateView, Option<GroupAssignmentTaskView>) {
    let g = bumped(group, changed);
    if g.members == Map::<Seq<char>, ConsumerMemberStateView>::empty()
        || !assignment_interval::due(g.assignment_timestamp, g.assignment_interval_ms, now) {
        (g, None)
    } else {
        (g, Some(task_for(g)))
    }
}

/// The group and the task after its target assignment was brought up to date, now or later.
pub open spec fn assigned(group: ConsumerGroupStateView, topics: Seq<TopicInfoView>, changed: bool, now: int, defer: bool) -> Result<
    (ConsumerGroupStateView, Option<GroupAssignmentTaskView>),
    ControlErrorView,
> {
    if defer {
        Ok(deferred(group, changed, now))
    } else {
        match consumer_groups::retargeted(group, topics, changed, now) {
            Ok(after) => Ok((after, None)),
            Err(error) => Err(error),
        }
    }
}

/// What a member is told that has left.
pub open spec fn goodbye(member_id: Seq<char>, epoch: i32) -> ConsumerGroupHeartbeatResultView {
    ConsumerGroupHeartbeatResultView { member_id, member_epoch: epoch, heartbeat_interval_ms: 0, assignment: None }
}

/// What it leads to that a member leaves.
pub open spec fn leaving(
    group: ConsumerGroupStateView,
    request: ConsumerGroupHeartbeatView,
    topics: Seq<TopicInfoView>,
    now: int,
    defer: bool,
) -> Beat {
    if !group.members.contains_key(request.member_id) {
        Err(ControlErrorView::GroupMemberNotFound { group: request.group_id, member: request.member_id })
    } else {
        let rest = ConsumerGroupStateView { members: group.members.remove(request.member_id), ..group };
        match consumer_groups::with_refresh_state(rest, topics, false, request.regex_refresh_interval_ms, now) {
            Err(error) => Err(error),
            Ok(g) => match assigned(g, topics, true, now, defer) {
                Err(error) => Err(error),
                Ok((after, task)) => Ok((after, goodbye(request.member_id, request.member_epoch), task)),
            },
        }
    }
}

/// A static member that is away: it keeps its partitions, whose epochs start over.
pub open spec fn away(member: ConsumerMemberStateView) -> ConsumerMemberStateView {
    ConsumerMemberStateView {
        member_epoch: AWAY,
        assignment_epochs: member.assignment_epochs.map_values(|epoch: i32| 0i32),
        ..member
    }
}

/// What it leads to that a static member goes away for a while.
pub open spec fn pausing(
    group: ConsumerGroupStateView,
    request: ConsumerGroupHeartbeatView,
    topics: Seq<TopicInfoView>,
    now: int,
    defer: bool,
) -> Beat {
    match request.instance_id {
        None => leaving(group, request, topics, now, defer),
        Some(instance) => match consumer_groups::instance_owner(group.members, instance) {
            None => Err(ControlErrorView::GroupMemberNotFound { group: request.group_id, member: request.member_id }),
            Some(id) => if group.members[id].member_id != request.member_id {
                Err(ControlErrorView::FencedInstanceId { group: request.group_id, instance_id: instance })
            } else {
                Ok(
                    (
                        ConsumerGroupStateView { members: group.members.insert(id, away(group.members[id])), ..group },
                        goodbye(request.member_id, AWAY),
                        None,
                    ),
                )
            },
        },
    }
}

/// Whether a member that sends its previous epoch may recover: it claims no more than it was given.
pub open spec fn may_recover(member: ConsumerMemberStateView, request: ConsumerGroupHeartbeatView) -> bool {
    request.owned_partitions is Some && consumer_types::owned_set(request.owned_partitions->0).subset_of(
        consumer_types::assignment_set(member.current_assignment),
    )
}

/// The seat of a member that sends a heartbeat, or why it has none.
pub open spec fn seat_of(group: ConsumerGroupStateView, request: ConsumerGroupHeartbeatView, topics: Seq<TopicInfoView>, now: int) -> Result<
    consumer_groups::Seat,
    ControlErrorView,
> {
    if request.member_epoch == 0 {
        match consumer_groups::seat_for(group, request, topics, now) {
            Err(error) => Err(error),
            Ok(seat) => if seat.is_new && seat.group.members.dom().len() >= request.max_size {
                Err(ControlErrorView::GroupMaxSizeReached(request.group_id))
            } else {
                Ok(seat)
            },
        }
    } else if !group.members.contains_key(request.member_id) {
        Err(ControlErrorView::GroupMemberNotFound { group: request.group_id, member: request.member_id })
    } else {
        let member = group.members[request.member_id];
        if member_epoch::admits(member.member_epoch, member.previous_member_epoch, request.member_epoch, may_recover(member, request)) {
            Ok(consumer_groups::Seat { group, member, is_new: false, replaces_static: false })
        } else {
            Err(
                ControlErrorView::FencedMemberEpoch {
                    group: request.group_id,
                    member: request.member_id,
                    expected: member.member_epoch,
                    actual: request.member_epoch,
                },
            )
        }
    }
}

/// What a member is told: when its assignment is computed later, one that joins is told what it has.
pub open spec fn answer_for(
    group: ConsumerGroupStateView,
    request: ConsumerGroupHeartbeatView,
    result: ConsumerGroupHeartbeatResultView,
    defer: bool,
) -> ConsumerGroupHeartbeatResultView {
    if defer && request.member_epoch == 0 && result.assignment is None {
        ConsumerGroupHeartbeatResultView { assignment: Some(group.members[request.member_id].current_assignment), ..result }
    } else {
        result
    }
}

/// What the heartbeat of a seated member leads to.
pub open spec fn seated_beat(
    seat: consumer_groups::Seat,
    request: ConsumerGroupHeartbeatView,
    topics: Seq<TopicInfoView>,
    now: int,
    defer: bool,
    expired: bool,
) -> Beat {
    let rival = if request.instance_id is Some {
        consumer_groups::first_rival(
            consumer_groups::ordered(seat.group.members.dom()),
            seat.group.members,
            request.instance_id->0,
            request.member_id,
        )
    } else {
        None
    };
    let member = consumer_groups::with_request(seat.member, request, topics, now);
    if rival is Some {
        Err(
            ControlErrorView::UnreleasedInstanceId {
                group: request.group_id,
                instance_id: request.instance_id->0,
                member: rival->0,
            },
        )
    } else if consumer_groups::subscription_error(seat.member, request, topics, now) is Some {
        Err(consumer_groups::subscription_error(seat.member, request, topics, now)->0)
    } else {
        let introduced = member.subscribed_topic_regex is Some && !consumer_groups::has_pattern(
            seat.group.members,
            member.subscribed_topic_regex->0,
        );
        let full = ConsumerGroupStateView { members: seat.group.members.insert(request.member_id, member), ..seat.group };
        match consumer_groups::with_refresh_state(full, topics, introduced, request.regex_refresh_interval_ms, now) {
            Err(error) => Err(error),
            Ok(g) => if request.server_assignor is Some && !consumer_assignor::supported(request.server_assignor->0) {
                Err(ControlErrorView::UnsupportedConsumerAssignor(request.server_assignor->0))
            } else {
                let chosen = if request.server_assignor is Some {
                    ConsumerGroupStateView { assignor_name: request.server_assignor->0, ..g }
                } else {
                    g
                };
                let triggered = expired || seat.is_new || consumer_groups::metadata_differs(seat.member, member) || chosen.assignor_name
                    != g.assignor_name;
                let step = if !seat.replaces_static || triggered || chosen.regex_refresh_pending {
                    assigned(chosen, topics, triggered, now, defer)
                } else {
                    Ok((chosen, None))
                };
                match step {
                    Err(error) => Err(error),
                    Ok((ready, task)) => {
                        let (after, result) = consumer_reconcile::reconciled(ready, request.member_id, request.heartbeat_interval_ms);
                        Ok((after, answer_for(after, request, result, defer), task))
                    },
                }
            },
        }
    }
}

/// The heartbeat with a member id, made up where it has none.
pub open spec fn identified(request: ConsumerGroupHeartbeatView, fresh: Seq<char>) -> ConsumerGroupHeartbeatView {
    if request.member_id.len() == 0 {
        ConsumerGroupHeartbeatView { member_id: "rutomq-"@ + fresh, ..request }
    } else {
        request
    }
}

/// What a heartbeat leads to; `fresh` is the text from which a new member id is made.
pub open spec fn beat(
    state: Option<ConsumerGroupStateView>,
    request: ConsumerGroupHeartbeatView,
    topics: Seq<TopicInfoView>,
    now: int,
    defer: bool,
    fresh: Seq<char>,
) -> Beat {
    let asked = identified(request, fresh);
    if consumer_groups::request_error(request) is Some {
        Err(consumer_groups::request_error(request)->0)
    } else if state is None && request.member_epoch != 0 {
        Err(ControlErrorView::GroupNotFound(request.group_id))
    } else {
        let start = if state is Some {
            state->0
        } else {
            consumer_groups::new_group(request.group_id, request.configured_assignors[0])
        };
        let expired = consumer_groups::some_silent(start, now);
        let group = ConsumerGroupStateView {
            assignment_interval_ms: request.assignment_interval_ms,
            ..consumer_groups::without_silent(start, now)
        };
        if request.member_epoch == -1 {
            leaving(group, asked, topics, now, defer)
        } else if request.member_epoch == -2 {
            pausing(group, asked, topics, now, defer)
        } else {
            match seat_of(group, asked, topics, now) {
                Err(error) => Err(error),
                Ok(seat) => seated_beat(seat, asked, topics, now, defer, expired),
            }
        }
    }
}

fn assignment_task(group: &ConsumerGroupState) -> (r: GroupAssignmentTask)
    ensures
        r.deep_view() == task_for(group.deep_view()),
{
    GroupAssignmentTask {
        protocol: AssignmentProtocol::Consumer,
        group_id: group.group_id.clone(),
        group_epoch: group.group_epoch,
        assignment_epoch: group.assignment_epoch,
        assignment_timestamp: group.assignment_timestamp,
    }
}

fn assign(
    group: &mut ConsumerGroupState,
    topics: &[TopicInfo],
    changed: bool,
    now: Timestamp,
    defer: bool,
) -> (r: Result<Option<GroupAssignmentTask>, ControlError>)
    requires
        consumer_assignor::countable(sorted_map::models(topics@)),
    ensures
        match assigned(old(group).deep_view(), sorted_map::models(topics@), changed, now.deep_view(), defer) {
            Ok((after, task)) => r is Ok && final(group).deep_view() == after && r->Ok_0.deep_view() == task,
            Err(error) => r is Err && r->Err_0.deep_view() == error,
        },
{
    if !defer {
        return match refresh_target_assignment(group, topics, changed, now) {
            Ok(_) => Ok(None),
            Err(error) => Err(error),
        };
    }
    if changed {
        if group.group_epoch < i32::MAX {
            group.group_epoch = group.group_epoch + 1;
        }
    }
    if group.members.is_empty() || !can_compute(group.assignment_timestamp, group.assignment_interval_ms, now) {
        return Ok(None);
    }
    Ok(Some(assignment_task(group)))
}

fn say_goodbye(member_id: &String, epoch: i32) -> (r: ConsumerGroupHeartbeatResult)
    ensures
        r.deep_view() == goodbye(member_id@, epoch),
{
    ConsumerGroupHeartbeatResult { member_id: member_id.clone(), member_epoch: epoch, heartbeat_interval_ms: 0, assignment: None }
}

fn leave(group: ConsumerGroupState, request: &ConsumerGroupHeartbeat, topics: &[TopicInfo], now: Timestamp, defer: bool) -> (r: Result<
    (ConsumerGroupState, ConsumerGroupHeartbeatResult, Option<GroupAssignmentTask>),
    ControlError,
>)
    requires
        consumer_assignor::countable(sorted_map::models(topics@)),
    ensures
        error::outcome(r) == leaving(group.deep_view(), request.deep_view(), sorted_map::models(topics@), now.deep_view(), defer),
{
    let mut group = group;
    if group.members.remove(&request.member_id).is_none() {
        return Err(ControlError::GroupMemberNotFound { group: request.group_id.clone(), member: request.member_id.clone() });
    }
    if let Err(error) = update_regex_refresh_state(&mut group, topics, false, request.regex_refresh_interval_ms, now) {
        return Err(error);
    }
    match assign(&mut group, topics, true, now, defer) {
        Err(error) => Err(error),
        Ok(task) => Ok((group, say_goodbye(&request.member_id, request.member_epoch), task)),
    }
}

fn static_leave(group: ConsumerGroupState, request: &ConsumerGroupHeartbeat, topics: &[TopicInfo], now: Timestamp, defer: bool) -> (r: Result<
    (ConsumerGroupState, ConsumerGroupHeartbeatResult, Option<GroupAssignmentTask>),
    ControlError,
>)
    requires
        consumer_assignor::countable(sorted_map::models(topics@)),
    ensures
        error::outcome(r) == pausing(group.deep_view(), request.deep_view(), sorted_map::models(topics@), now.deep_view(), defer),
{
    let mut group = group;
    match &request.instance_id {
        None => leave(group, request, topics, now, defer),
        Some(instance) => match find_instance_owner(&group.members, instance.as_str()) {
            None => Err(ControlError::GroupMemberNotFound { group: request.group_id.clone(), member: request.member_id.clone() }),
            Some(id) => {
                let ghost g = group.deep_view();
                let mut member = group.members.remove(&id).unwrap();
                if !same_text(member.member_id.as_str(), request.member_id.as_str()) {
                    return Err(ControlError::FencedInstanceId { group: request.group_id.clone(), instance_id: instance.clone() });
                }
                let ghost change = |epoch: i32| 0i32;
                let changes = |epoch: &i32| -> (e: i32)
                    ensures e.deep_view() == change(epoch.deep_view())
                {
                    0i32
                };
                member.assignment_epochs.update_values(changes, Ghost(change));
                member.member_epoch = AWAY;
                let ghost after = member.deep_view();
                group.members.insert(id, member);
                proof {
                    assert(after.assignment_epochs =~= away(g.members[id@]).assignment_epochs);
                    assert(after == away(g.members[id@]));
                    assert(g.members.remove(id@).insert(id@, after) =~= g.members.insert(id@, after));
                }
                Ok((group, say_goodbye(&request.member_id, AWAY), None))
            },
        },
    }
}

fn take_seat(group: &mut ConsumerGroupState, request: &ConsumerGroupHeartbeat, topics: &[TopicInfo], now: Timestamp) -> (r: Result<
    (ConsumerMemberState, bool, bool),
    ControlError,
>)
    requires
        request.max_size > 0,
    ensures
        match seat_of(old(group).deep_view(), request.deep_view(), sorted_map::models(topics@), now.deep_view()) {
            Ok(seat) => {
                &&& r is Ok
                &&& final(group).deep_view() == seat.group
                &&& r->Ok_0.0.deep_view() == seat.member
                &&& r->Ok_0.1 == seat.is_new
                &&& r->Ok_0.2 == seat.replaces_static
            },
            Err(error) => r is Err && r->Err_0.deep_view() == error,
        },
{
    if request.member_epoch == 0 {
        let seat = joining_member(group, request, topics, now);
        if let Ok((_, is_new, _)) = &seat {
            if *is_new && group.members.len() >= request.max_size as usize {
                return Err(ControlError::GroupMaxSizeReached(request.group_id.clone()));
            }
        }
        return seat;
    }
    match group.members.get(&request.member_id) {
        None => Err(ControlError::GroupMemberNotFound { group: request.group_id.clone(), member: request.member_id.clone() }),
        Some(member) => {
            let recovery_allowed = match &request.owned_partitions {
                None => false,
                Some(owned) => {
                    let claimed = owned_partition_set(owned);
                    let given = assigned_partitions(&member.current_assignment);
                    assert(claimed.deep_view().dom() =~= consumer_types::owned_set(owned.deep_view()));
                    assert(given.deep_view().dom() =~= consumer_types::assignment_set(member.current_assignment.deep_view()));
                    is_subset(&claimed, &given)
                },
            };
            match member_epoch::validate(
                request.group_id.as_str(),
                request.member_id.as_str(),
                member.member_epoch,
                member.previous_member_epoch,
                request.member_epoch,
                recovery_allowed,
            ) {
                Err(error) => Err(error),
                Ok(_) => Ok((member.duplicate(), false, false)),
            }
        },
    }
}

fn beat_seated(
    group: ConsumerGroupState,
    member: ConsumerMemberState,
    is_new: bool,
    replaces_static: bool,
    request: &ConsumerGroupHeartbeat,
    topics: &[TopicInfo],
    now: Timestamp,
    defer: bool,
    expired: bool,
) -> (r: Result<(ConsumerGroupState, ConsumerGroupHeartbeatResult, Option<GroupAssignmentTask>), ControlError>)
    requires
        consumer_assignor::countable(sorted_map::models(topics@)),
    ensures
        error::outcome(r) == seated_beat(
            (consumer_groups::Seat { group: group.deep_view(), member: member.deep_view(), is_new, replaces_static }),
            request.deep_view(),
            sorted_map::models(topics@),
            now.deep_view(),
            defer,
            expired,
        ),
{
    let mut group = group;
    let mut member = member;
    if let Some(instance) = &request.instance_id {
        if let Some(rival) = find_rival(&group.members, instance.as_str(), request.member_id.as_str()) {
            return Err(
                ControlError::UnreleasedInstanceId { group: request.group_id.clone(), instance_id: instance.clone(), member: rival },
            );
        }
    }
    let changed = match update_member(&mut member, request, topics, now) {
        Err(error) => {
            return Err(error);
        },
        Ok(changed) => changed,
    };
    let introduced = match &member.subscribed_topic_regex {
        Some(pattern) => !uses_pattern(&group.members, pattern.as_str()),
        None => false,
    };
    group.members.insert(request.member_id.clone(), member);
    if let Err(error) = update_regex_refresh_state(&mut group, topics, introduced, request.regex_refresh_interval_ms, now) {
        return Err(error);
    }
    let mut assignor_changed = false;
    if let Some(assignor) = &request.server_assignor {
        if let Err(error) = validate_assignor(assignor.as_str()) {
            return Err(error);
        }
        assignor_changed = !same_text(group.assignor_name.as_str(), assignor.as_str());
        group.assignor_name = assignor.clone();
    }
    let triggered = expired || is_new || changed || assignor_changed;
    let ghost chosen = group.deep_view();
    let task = if !replaces_static || triggered || group.regex_refresh_pending {
        match assign(&mut group, topics, triggered, now, defer) {
            Err(error) => {
                return Err(error);
            },
            Ok(task) => task,
        }
    } else {
        None
    };
    proof {
        if !replaces_static || triggered || chosen.regex_refresh_pending {
            assigned_keeps_members(chosen, sorted_map::models(topics@), triggered, now.deep_view(), defer);
        }
    }
    let mut result = reconcile_member(&mut group, request.member_id.as_str(), request.heartbeat_interval_ms);
    if defer && request.member_epoch == 0 && result.assignment.is_none() {
        if let Some(member) = group.members.get(&request.member_id) {
            result.assignment = Some(member.current_assignment.duplicate());
        }
    }
    Ok((group, result, task))
}

/// Bringing a target assignment up to date neither adds nor removes members.
pub proof fn assigned_keeps_members(group: ConsumerGroupStateView, topics: Seq<TopicInfoView>, changed: bool, now: int, defer: bool)
    requires
        assigned(group, topics, changed, now, defer) is Ok,
    ensures
        assigned(group, topics, changed, now, defer)->Ok_0.0.members.dom() == group.members.dom(),
{
    let after = assigned(group, topics, changed, now, defer)->Ok_0.0;
    assert(after.members.dom() =~= group.members.dom());
}

pub(crate) fn heartbeat_inner(
    state: Option<ConsumerGroupState>,
    request: ConsumerGroupHeartbeat,
    topics: &[TopicInfo],
    now: Timestamp,
    defer: bool,
    fresh: &str,
) -> (r: Result<
    (ConsumerGroupState, ConsumerGroupHeartbeatResult, Option<GroupAssignmentTask>),
    ControlError,
>)
    requires
        consumer_assignor::countable(sorted_map::models(topics@)),
    ensures
        error::outcome(r) == beat(state.deep_view(), request.deep_view(), sorted_map::models(topics@), now.deep_view(), defer, fresh@),
{
    let ghost sent = request.deep_view();
    let mut request = request;
    if let Err(error) = validate_request(&request) {
        return Err(error);
    }
    if request.member_id.as_str().is_empty() {
        request.member_id = join_texts("rutomq-", fresh);
    }
    let mut group = match state {
        Some(group) => group,
        None => {
            if request.member_epoch != 0 {
                return Err(ControlError::GroupNotFound(request.group_id));
            }
            assert(request.configured_assignors.deep_view()[0] == request.configured_assignors@[0].deep_view());
            ConsumerGroupState::new(request.group_id.clone(), request.configured_assignors[0].clone())
        },
    };
    let expired = expire_members(&mut group, now);
    group.assignment_interval_ms = request.assignment_interval_ms;
    if request.member_epoch == -1 {
        return leave(group, &request, topics, now, defer);
    }
    if request.member_epoch == -2 {
        return static_leave(group, &request, topics, now, defer);
    }
    match take_seat(&mut group, &request, topics, now) {
        Err(error) => Err(error),
        Ok((member, is_new, replaces_static)) => beat_seated(
            group,
            member,
            is_new,
            replaces_static,
            &request,
            topics,
            now,
            defer,
            expired,
        ),
    }
}

/// What a heartbeat leads to whose assignment is computed at once.
pub open spec fn prompt_beat(
    state: Option<ConsumerGroupStateView>,
    request: ConsumerGroupHeartbeatView,
    topics: Seq<TopicInfoView>,
    now: int,
    fresh: Seq<char>,
) -> Result<
    (ConsumerGroupStateView, ConsumerGroupHeartbeatResultView),
    ControlErrorView,
> {
    match beat(state, request, topics, now, false, fresh) {
        Ok((group, result, task)) => Ok((group, result)),
        Err(error) => Err(error),
    }
}

/// Takes a member's heartbeat and computes the assignment at once.
pub fn heartbeat(state: Option<ConsumerGroupState>, request: ConsumerGroupHeartbeat, topics: &[TopicInfo], now: Timestamp, fresh: &str) -> (r: Result<
    (ConsumerGroupState, ConsumerGroupHeartbeatResult),
    ControlError,
>)
    requires
        consumer_assignor::countable(sorted_map::models(topics@)),
    ensures
        error::outcome(r) == prompt_beat(state.deep_view(), request.deep_view(), sorted_map::models(topics@), now.deep_view(), fresh@),
{
    match heartbeat_inner(state, request, topics, now, false, fresh) {
        Ok((group, result, _)) => Ok((group, result)),
        Err(error) => Err(error),
    }
}

/// Takes a member's heartbeat and leaves the assignment to be computed later.
pub fn heartbeat_deferred(
    state: Option<ConsumerGroupState>,
    request: ConsumerGroupHeartbeat,
    topics: &[TopicInfo],
    now: Timestamp,
    fresh: &str,
) -> (r: Result<
    (ConsumerGroupState, ConsumerGroupHeartbeatResult, Option<GroupAssignmentTask>),
    ControlError,
>)
    requires
        consumer_assignor::countable(sorted_map::models(topics@)),
    ensures
        error::outcome(r) == beat(state.deep_view(), request.deep_view(), sorted_map::models(topics@), now.deep_view(), true, fresh@),
{
    heartbeat_inner(state, request, topics, now, true, fresh)
}

/// The group and the outcome after an assignment was computed for a task.
pub open spec fn completed(group: ConsumerGroupStateView, topics: Seq<TopicInfoView>, task: GroupAssignmentTaskView, now: int) -> Result<
    (ConsumerGroupStateView, GroupAssignmentCompletion),
    ControlErrorView,
> {
    if task != task_for(group) {
        Ok((group, GroupAssignmentCompletion::Stale))
    } else {
        match consumer_groups::retargeted(group, topics, false, now) {
            Err(error) => Err(error),
            Ok(after) => if after.assignment_epoch == group.assignment_epoch {
                Ok((ConsumerGroupStateView { assignment_timestamp: Some(now), ..after }, GroupAssignmentCompletion::Unchanged))
            } else {
                Ok((after, GroupAssignmentCompletion::Published))
            },
        }
    }
}

fn same_instant(a: Option<Timestamp>, b: Option<Timestamp>) -> (r: bool)
    ensures
        r == (a.deep_view() == b.deep_view()),
{
    match (a, b) {
        (None, None) => true,
        (Some(x), Some(y)) => x.nanos == y.nanos,
        _ => false,
    }
}

/// Computes the assignment for a task, unless the group has moved on since.
pub fn complete_assignment(group: &mut ConsumerGroupState, topics: &[TopicInfo], task: &GroupAssignmentTask, now: Timestamp) -> (r: Result<
    GroupAssignmentCompletion,
    ControlError,
>)
    requires
        consumer_assignor::countable(sorted_map::models(topics@)),
    ensures
        match completed(old(group).deep_view(), sorted_map::models(topics@), task.deep_view(), now.deep_view()) {
            Ok((after, completion)) => r == Ok::<GroupAssignmentCompletion, ControlError>(completion) && final(group).deep_view() == after,
            Err(error) => r is Err && r->Err_0.deep_view() == error && final(group).deep_view() == old(group).deep_view(),
        },
{
    let current = task.protocol == AssignmentProtocol::Consumer && same_text(task.group_id.as_str(), group.group_id.as_str())
        && task.group_epoch == group.group_epoch && task.assignment_epoch == group.assignment_epoch && same_instant(
        task.assignment_timestamp,
        group.assignment_timestamp,
    );
    if !current {
        return Ok(GroupAssignmentCompletion::Stale);
    }
    let previous_epoch: i32 = group.assignment_epoch;
    if let Err(error) = refresh_target_assignment(group, topics, false, now) {
        return Err(error);
    }
    if group.assignment_epoch == previous_epoch {
        group.assignment_timestamp = Some(now);
        Ok(GroupAssignmentCompletion::Unchanged)
    } else {
        Ok(GroupAssignmentCompletion::Published)
    }
}

} // verus!
