//! What a consumer group tells of itself, and which commits it accepts.

use crate::consumer_groups;
use crate::consumer_groups::AWAY;
use crate::consumer_types;
use crate::consumer_types::{
    assigned_partitions, is_same_set, ConsumerGroupDescription, ConsumerGroupDescriptionView,
    ConsumerGroupMemberDescription, ConsumerGroupMemberDescriptionView, ConsumerGroupState, ConsumerGroupStateView,
    ConsumerMemberState, ConsumerMemberStateView, ConsumerTopicAssignment, ConsumerTopicAssignmentView,
};
use crate::error;
use crate::error::{ControlError, ControlErrorView};
use crate::partition::{PartitionKey, PartitionKeyView};
use crate::sorted_map;
use crate::sorted_map::{Duplicate, SortedMap};
use vstd::prelude::*;

verus! {

/// A member in full.
pub open spec fn member_description(member: ConsumerMemberStateView) -> ConsumerGroupMemberDescriptionView {
    ConsumerGroupMemberDescriptionView {
        member_id: member.member_id,
        instance_id: member.instance_id,
        rack_id: member.rack_id,
        member_epoch: member.member_epoch,
        client_id: member.client_id,
        client_host: member.client_host,
        subscribed_topic_names: member.subscribed_topic_names,
        subscribed_topic_regex: member.subscribed_topic_regex,
        assignment: member.current_assignment,
        target_assignment: member.target_assignment,
    }
}

/// Whether a member is away or has arrived at its target assignment.
pub open spec fn settled(group: ConsumerGroupStateView, member: ConsumerMemberStateView) -> bool {
    member.member_epoch == AWAY || (member.member_epoch == group.assignment_epoch && consumer_types::assignment_set(
        member.current_assignment,
    ) == consumer_types::assignment_set(member.target_assignment) && consumer_types::assignment_set(member.owned_assignment)
        == consumer_types::assignment_set(member.current_assignment))
}

/// Whether every member is away or has arrived at its target assignment.
pub open spec fn all_settled(group: ConsumerGroupStateView) -> bool {
    forall|id: Seq<char>| #[trigger] group.members.contains_key(id) ==> settled(group, group.members[id])
}

/// The name of a group's state.
pub open spec fn state_name(group: ConsumerGroupStateView) -> Seq<char> {
    if group.members == Map::<Seq<char>, ConsumerMemberStateView>::empty() {
        "Empty"@
    } else if group.group_epoch > group.assignment_epoch {
        "Assigning"@
    } else if all_settled(group) {
        "Stable"@
    } else {
        "Reconciling"@
    }
}

/// A group in full, its members in the order of their ids.
pub open spec fn description(group: ConsumerGroupStateView) -> ConsumerGroupDescriptionView {
    let ids = consumer_groups::ordered(group.members.dom());
    ConsumerGroupDescriptionView {
        group_id: group.group_id,
        state: state_name(group),
        group_epoch: group.group_epoch,
        assignment_epoch: group.assignment_epoch,
        assignor_name: group.assignor_name,
        members: Seq::new(ids.len(), |i: int| member_description(group.members[ids[i]])),
    }
}

fn is_settled(assignment_epoch: i32, member: &ConsumerMemberState) -> (r: bool)
    ensures
        forall|group: ConsumerGroupStateView| group.assignment_epoch == assignment_epoch ==> r == #[trigger] settled(group, member.deep_view()),
{
    if member.member_epoch == AWAY {
        return true;
    }
    let current = assigned_partitions(&member.current_assignment);
    let target = assigned_partitions(&member.target_assignment);
    let owned = assigned_partitions(&member.owned_assignment);
    assert(current.deep_view().dom() =~= consumer_types::assignment_set(member.current_assignment.deep_view()));
    assert(target.deep_view().dom() =~= consumer_types::assignment_set(member.target_assignment.deep_view()));
    assert(owned.deep_view().dom() =~= consumer_types::assignment_set(member.owned_assignment.deep_view()));
    member.member_epoch == assignment_epoch && is_same_set(&current, &target) && is_same_set(&owned, &current)
}

fn describe_member(member: &ConsumerMemberState) -> (r: ConsumerGroupMemberDescription)
    ensures
        r.deep_view() == member_description(member.deep_view()),
{
    ConsumerGroupMemberDescription {
        member_id: member.member_id.clone(),
        instance_id: member.instance_id.duplicate(),
        rack_id: member.rack_id.duplicate(),
        member_epoch: member.member_epoch,
        client_id: member.client_id.clone(),
        client_host: member.client_host.clone(),
        subscribed_topic_names: member.subscribed_topic_names.duplicate(),
        subscribed_topic_regex: member.subscribed_topic_regex.duplicate(),
        assignment: member.current_assignment.duplicate(),
        target_assignment: member.target_assignment.duplicate(),
    }
}

/// Describes a group.
pub fn describe(group: &ConsumerGroupState) -> (r: ConsumerGroupDescription)
    ensures
        r.deep_view() == description(group.deep_view()),
{
    let ghost g = group.deep_view();
    let epoch: i32 = group.assignment_epoch;
    let ghost unsettled = |id: Seq<char>, member: ConsumerMemberStateView| !settled(g, member);
    let is_unsettled = |id: &String, member: &ConsumerMemberState| -> (b: bool)
        ensures b == unsettled(id.deep_view(), member.deep_view())
    {
        !is_settled(epoch, member)
    };
    let moving = group.members.any(is_unsettled, Ghost(unsettled));
    proof {
        if moving {
            let id = choose|id: Seq<char>| #[trigger] g.members.contains_key(id) && unsettled(id, g.members[id]);
            assert(g.members.contains_key(id) && !settled(g, g.members[id]));
        } else {
            assert forall|id: Seq<char>| #[trigger] g.members.contains_key(id) implies settled(g, g.members[id]) by {
                assert(!unsettled(id, g.members[id]));
            }
        }
    }
    let state = if group.members.is_empty() {
        "Empty"
    } else if group.group_epoch > group.assignment_epoch {
        "Assigning"
    } else if !moving {
        "Stable"
    } else {
        "Reconciling"
    };
    let ids = group.members.keys();
    let ghost all = ids.deep_view();
    let ghost want = description(g).members;
    let mut members: Vec<ConsumerGroupMemberDescription> = Vec::new();
    let mut i: usize = 0;
    while i < ids.len()
        invariant
            i <= ids@.len(),
            g == group.deep_view(),
            all == ids.deep_view(),
            all == consumer_groups::ordered(g.members.dom()),
            all.to_set() == g.members.dom(),
            want == description(g).members,
            members@.len() == i,
            forall|j: int| 0 <= j < i ==> (#[trigger] members@[j]).deep_view() == want[j],
        decreases ids@.len() - i,
    {
        proof {
            assert(all[i as int] == ids@[i as int].deep_view());
            assert(all.contains(all[i as int]));
            assert(g.members.dom().contains(all[i as int]));
        }
        match group.members.get(&ids[i]) {
            Some(member) => {
                members.push(describe_member(member));
            },
            None => {
                assert(false);
            },
        }
        i = i + 1;
    }
    assert(members.deep_view() =~= want);
    ConsumerGroupDescription {
        group_id: group.group_id.clone(),
        state: state.to_owned(),
        group_epoch: group.group_epoch,
        assignment_epoch: group.assignment_epoch,
        assignor_name: group.assignor_name.clone(),
        members,
    }
}

/// That a member is unknown.
pub open spec fn unknown(group: ConsumerGroupStateView, member_id: Seq<char>) -> ControlErrorView {
    ControlErrorView::GroupMemberNotFound { group: group.group_id, member: member_id }
}

/// That a member's epoch is stale.
pub open spec fn fenced(group: ConsumerGroupStateView, member_id: Seq<char>, expected: i32, actual: i32) -> ControlErrorView {
    ControlErrorView::FencedMemberEpoch { group: group.group_id, member: member_id, expected, actual }
}

/// Why a member is not a current one.
pub open spec fn member_verdict(group: ConsumerGroupStateView, member_id: Seq<char>, epoch: i32) -> Result<(), ControlErrorView> {
    if !group.members.contains_key(member_id) {
        Err(unknown(group, member_id))
    } else if group.members[member_id].member_epoch != epoch {
        Err(fenced(group, member_id, group.members[member_id].member_epoch, epoch))
    } else {
        Ok(())
    }
}

/// Checks that a member is a current one.
pub fn validate_member(group: &ConsumerGroupState, member_id: &str, member_epoch: i32) -> (r: Result<(), ControlError>)
    ensures
        error::outcome(r) == member_verdict(group.deep_view(), member_id@, member_epoch),
{
    match group.members.get(&member_id.to_owned()) {
        None => Err(ControlError::GroupMemberNotFound { group: group.group_id.clone(), member: member_id.to_owned() }),
        Some(member) => if member.member_epoch != member_epoch {
            Err(
                ControlError::FencedMemberEpoch {
                    group: group.group_id.clone(),
                    member: member_id.to_owned(),
                    expected: member.member_epoch,
                    actual: member_epoch,
                },
            )
        } else {
            Ok(())
        },
    }
}

/// The ids of the topics in a list of assignments, by the topics' names.
pub open spec fn ids_in(list: Seq<ConsumerTopicAssignmentView>, before: Map<Seq<char>, u128>) -> Map<Seq<char>, u128>
    decreases list.len(),
{
    if list.len() == 0 {
        before
    } else {
        ids_in(list.drop_last(), before).insert(list.last().topic_name, list.last().topic_id)
    }
}

/// The ids of the topics that a member has, is to have, or owns, by the topics' names.
pub open spec fn member_topic_ids(member: ConsumerMemberStateView) -> Map<Seq<char>, u128> {
    ids_in(member.owned_assignment, ids_in(member.target_assignment, ids_in(member.current_assignment, Map::empty())))
}

/// Whether a member with an older epoch may still commit for a partition: it had that epoch when the
/// partition was assigned to it, or later.
pub open spec fn may_commit(member: ConsumerMemberStateView, epoch: i32, partition: PartitionKeyView) -> bool {
    let ids = member_topic_ids(member);
    let key = (ids[partition.topic], partition.partition);
    ids.contains_key(partition.topic) && member.assignment_epochs.contains_key(key) && epoch >= member.assignment_epochs[key]
}

/// Which partitions a member may commit offsets for.
pub open spec fn commit_verdict(
    group: ConsumerGroupStateView,
    member_id: Seq<char>,
    epoch: i32,
    partitions: Seq<PartitionKeyView>,
) -> Result<Seq<bool>, ControlErrorView> {
    if epoch < 0 && group.members == Map::<Seq<char>, ConsumerMemberStateView>::empty() {
        Ok(Seq::new(partitions.len(), |i: int| true))
    } else if !group.members.contains_key(member_id) {
        Err(unknown(group, member_id))
    } else {
        let member = group.members[member_id];
        if epoch > member.member_epoch {
            Err(fenced(group, member_id, member.member_epoch, epoch))
        } else {
            Ok(Seq::new(partitions.len(), |i: int| epoch == member.member_epoch || may_commit(member, epoch, partitions[i])))
        }
    }
}

fn collect_ids(ids: &mut SortedMap<String, u128>, list: &Vec<ConsumerTopicAssignment>)
    ensures
        final(ids).deep_view() == ids_in(list.deep_view(), old(ids).deep_view()),
{
    let ghost before = ids.deep_view();
    let ghost all = list.deep_view();
    let mut i: usize = 0;
    assert(all.take(0) =~= Seq::<ConsumerTopicAssignmentView>::empty());
    while i < list.len()
        invariant
            i <= list@.len(),
            all == list.deep_view(),
            ids.deep_view() == ids_in(all.take(i as int), before),
        decreases list@.len() - i,
    {
        ids.insert(list[i].topic_name.clone(), list[i].topic_id);
        proof {
            assert(all.take(i + 1).drop_last() =~= all.take(i as int));
            assert(all.take(i + 1).last() == list@[i as int].deep_view());
        }
        i = i + 1;
    }
    assert(all.take(all.len() as int) =~= all);
}

fn all_true(n: usize) -> (r: Vec<bool>)
    ensures
        r.deep_view() == Seq::new(n as nat, |i: int| true),
{
    let mut r: Vec<bool> = Vec::new();
    let mut i: usize = 0;
    while i < n
        invariant
            i <= n,
            r@.len() == i,
            forall|j: int| 0 <= j < i ==> r@[j],
        decreases n - i,
    {
        r.push(true);
        i = i + 1;
    }
    assert(r.deep_view() =~= Seq::new(n as nat, |i: int| true));
    r
}

/// Tells for which partitions a member may commit offsets.
pub fn validate_offset_commit(group: &ConsumerGroupState, member_id: &str, member_epoch: i32, partitions: &[PartitionKey]) -> (r: Result<
    Vec<bool>,
    ControlError,
>)
    ensures
        error::outcome(r) == commit_verdict(group.deep_view(), member_id@, member_epoch, sorted_map::models(partitions@)),
{
    let ghost all = sorted_map::models(partitions@);
    if member_epoch < 0 && group.members.is_empty() {
        return Ok(all_true(partitions.len()));
    }
    let member = match group.members.get(&member_id.to_owned()) {
        None => {
            return Err(ControlError::GroupMemberNotFound { group: group.group_id.clone(), member: member_id.to_owned() });
        },
        Some(member) => member,
    };
    if member_epoch > member.member_epoch {
        return Err(
            ControlError::FencedMemberEpoch {
                group: group.group_id.clone(),
                member: member_id.to_owned(),
                expected: member.member_epoch,
                actual: member_epoch,
            },
        );
    }
    let ghost m = member.deep_view();
    let mut ids: SortedMap<String, u128> = SortedMap::new();
    collect_ids(&mut ids, &member.current_assignment);
    collect_ids(&mut ids, &member.target_assignment);
    collect_ids(&mut ids, &member.owned_assignment);
    let mut r: Vec<bool> = Vec::new();
    let mut i: usize = 0;
    while i < partitions.len()
        invariant
            i <= partitions@.len(),
            all == sorted_map::models(partitions@),
            m == member.deep_view(),
            ids.deep_view() == member_topic_ids(m),
            r@.len() == i,
            forall|j: int| 0 <= j < i ==> r@[j] == (member_epoch == m.member_epoch || may_commit(m, member_epoch, all[j])),
        decreases partitions@.len() - i,
    {
        let partition = &partitions[i];
        assert(all[i as int] == partition.deep_view());
        let accepted = match ids.get(&partition.topic) {
            None => false,
            Some(id) => match member.assignment_epochs.get(&(*id, partition.partition)) {
                None => false,
                Some(assigned) => member_epoch >= *assigned,
            },
        };
        r.push(member_epoch == member.member_epoch || accepted);
        i = i + 1;
    }
    assert(r.deep_view() =~= Seq::new(all.len(), |i: int| member_epoch == m.member_epoch || may_commit(m, member_epoch, all[i])));
    Ok(r)
}

/// Whether offsets may be committed within a transaction.
pub open spec fn transaction_verdict(
    group: ConsumerGroupStateView,
    member_id: Seq<char>,
    instance: Option<Seq<char>>,
    epoch: i32,
    partitions: Seq<PartitionKeyView>,
) -> Result<(), ControlErrorView> {
    if epoch == -1 && member_id.len() == 0 && instance is None {
        Ok(())
    } else {
        match commit_verdict(group, member_id, epoch, partitions) {
            Err(error) => Err(error),
            Ok(verdicts) => if forall|i: int| 0 <= i < verdicts.len() ==> #[trigger] verdicts[i] {
                Ok(())
            } else {
                Err(
                    fenced(
                        group,
                        member_id,
                        if group.members.contains_key(member_id) {
                            group.members[member_id].member_epoch
                        } else {
                            group.assignment_epoch
                        },
                        epoch,
                    ),
                )
            },
        }
    }
}

/// Checks that a member may commit offsets within a transaction.
pub fn validate_transaction_offset_commit(
    group: &ConsumerGroupState,
    member_id: &str,
    group_instance_id: Option<&str>,
    member_epoch: i32,
    partitions: &[PartitionKey],
) -> (r: Result<(), ControlError>)
    ensures
        error::outcome(r) == transaction_verdict(
            group.deep_view(),
            member_id@,
            group_instance_id.deep_view(),
            member_epoch,
            sorted_map::models(partitions@),
        ),
{
    if member_epoch == -1 && member_id.is_empty() && group_instance_id.is_none() {
        return Ok(());
    }
    match validate_offset_commit(group, member_id, member_epoch, partitions) {
        Err(error) => Err(error),
        Ok(verdicts) => {
            let ghost all = verdicts.deep_view();
            let mut i: usize = 0;
            while i < verdicts.len()
                invariant
                    i <= verdicts@.len(),
                    all == verdicts.deep_view(),
                    Ok::<Seq<bool>, ControlErrorView>(all) == commit_verdict(group.deep_view(), member_id@, member_epoch, sorted_map::models(partitions@)),
                    !(member_epoch == -1 && member_id@.len() == 0 && group_instance_id is None),
                    forall|j: int| 0 <= j < i ==> all[j],
                decreases verdicts@.len() - i,
            {
                assert(all[i as int] == verdicts@[i as int]);
                if !verdicts[i] {
                    let expected: i32 = match group.members.get(&member_id.to_owned()) {
                        Some(member) => member.member_epoch,
                        None => group.assignment_epoch,
                    };
                    return Err(
                        ControlError::FencedMemberEpoch {
                            group: group.group_id.clone(),
                            member: member_id.to_owned(),
                            expected,
                            actual: member_epoch,
                        },
                    );
                }
                i = i + 1;
            }
            Ok(())
        },
    }
}

} // verus!
