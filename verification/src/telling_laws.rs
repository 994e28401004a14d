//! What is told of groups and their members, and who counts as a member.

use crate::classic_groups;
use crate::classic_laws;
use crate::classic_member_laws;
use crate::consumer_groups;
use crate::consumer_queries;
use crate::consumer_types::ConsumerGroupStateView;
use crate::error::ControlErrorView;
use crate::group_admin;
use crate::partition::PartitionKeyView;
use crate::share_groups;
use crate::sorted_map;
use crate::store::{StoreView, StreamsCheckView};
use crate::topics;
use vstd::prelude::*;

verus! {

/// What is told of a consumer group: its epochs and, of each member once, what it subscribes to, what it has
/// and what is meant for it.
pub proof fn consumer_groups_are_told_in_full(group: ConsumerGroupStateView, x: Seq<char>)
    requires
        group.members.dom().finite(),
    ensures
        ({
            let told = consumer_queries::description(group);
            &&& told.group_id == group.group_id && told.group_epoch == group.group_epoch && told.assignment_epoch == group.assignment_epoch
                && told.assignor_name == group.assignor_name
            &&& told.members.len() == group.members.dom().len()
            &&& group.members.contains_key(x) ==> exists|i: int|
                0 <= i < told.members.len() && {
                    let one = #[trigger] told.members[i];
                    let member = group.members[x];
                    &&& one.member_id == member.member_id
                    &&& one.instance_id == member.instance_id
                    &&& one.rack_id == member.rack_id
                    &&& one.member_epoch == member.member_epoch
                    &&& one.client_id == member.client_id
                    &&& one.client_host == member.client_host
                    &&& one.subscribed_topic_names == member.subscribed_topic_names
                    &&& one.subscribed_topic_regex == member.subscribed_topic_regex
                    &&& one.assignment == member.current_assignment
                    &&& one.target_assignment == member.target_assignment
                }
        }),
{
    let ids = consumer_groups::ordered(group.members.dom());
    sorted_map::finite_sets_are_listed::<String>(group.members.dom());
    sorted_map::strictly_sorted_unique::<String>(ids);
    ids.unique_seq_to_set();
    if group.members.contains_key(x) {
        assert(ids.to_set().contains(x));
        let i = choose|i: int| 0 <= i < ids.len() && ids[i] == x;
        assert(consumer_queries::description(group).members[i] == consumer_queries::member_description(group.members[x]));
    }
}

/// What is told of a classic group: its generation, its protocol and, of each member once, what it sent and
/// what it was assigned. One of which only offsets are left is empty, and one that is unknown is not told of.
pub proof fn classic_groups_are_told_in_full(s: StoreView, id: Seq<char>, x: Seq<char>, key: (Seq<char>, PartitionKeyView))
    requires
        s.classic.groups.contains_key(id) ==> classic_laws::sound(s.classic.groups[id]),
    ensures
        ({
            let told = group_admin::classic_described(s, id);
            let group = s.classic.groups[id];
            let known = s.classic.groups.contains_key(id);
            &&& known || (key.0 == id && s.log.offsets.contains_key(key)) ==> told is Some
            &&& told is Some ==> told->0.group_id == id
            &&& told is Some && !known ==> told->0.state == "Empty"@ && told->0.members.len() == 0
            &&& known ==> {
                &&& told->0.generation_id == group.generation_id
                &&& told->0.protocol_type == group.protocol_type
                &&& told->0.protocol_data == group.protocol_name
                &&& told->0.members.len() == group.members.dom().len()
                &&& group.members.contains_key(x) ==> exists|i: int|
                    0 <= i < told->0.members.len() && {
                        let one = #[trigger] told->0.members[i];
                        let member = group.members[x];
                        &&& one.member_id == x
                        &&& one.group_instance_id == member.group_instance_id
                        &&& one.client_id == member.client_id
                        &&& one.client_host == member.client_host
                        &&& one.member_metadata == member.metadata
                        &&& group.assignments.contains_key(x) ==> one.member_assignment == group.assignments[x]
                        &&& !group.assignments.contains_key(x) ==> one.member_assignment.len() == 0
                    }
            }
        }),
{
    if key.0 == id && s.log.offsets.contains_key(key) {
        assert(group_admin::has_offsets(s.log.offsets, id));
    }
    if s.classic.groups.contains_key(id) {
        let group = s.classic.groups[id];
        let ids = classic_groups::ordered(group.members.dom());
        sorted_map::finite_sets_are_listed::<String>(group.members.dom());
        sorted_map::strictly_sorted_unique::<String>(ids);
        ids.unique_seq_to_set();
        if group.members.contains_key(x) {
            assert(ids.to_set().contains(x));
            let i = choose|i: int| 0 <= i < ids.len() && ids[i] == x;
            assert(classic_groups::listed(group.members)[i] == group.members[x]);
            assert(group_admin::group_description(id, group).members[i] == group_admin::member_description(group, group.members[x]));
        }
    }
}

/// Who counts as a member: nobody in particular, who says so by an empty id and no epoch; of a consumer group
/// a member with its present epoch; of a classic group one that names the generation, outside of a
/// rebalance, and is not silent.
pub proof fn members_are_checked(
    s: StoreView,
    group_id: Seq<char>,
    member_id: Seq<char>,
    epoch: i32,
    streams: Option<StreamsCheckView>,
    now: int,
)
    requires
        i128::MIN <= now < i128::MAX,
        s.classic.groups.contains_key(group_id) ==> classic_laws::sound(s.classic.groups[group_id]) && !classic_member_laws::some_are_silent(
            s.classic.groups[group_id],
            now,
        ) && s.classic.groups[group_id].generation_id < i32::MAX,
    ensures
        ({
            let (after, answer) = group_admin::member_checked(s, group_id, member_id, None, epoch, streams, now);
            let consumers = s.consumer_groups[group_id].members;
            let classic = s.classic.groups[group_id];
            let named = member_id.len() > 0 || epoch >= 0;
            &&& !named ==> answer is Ok && after == s
            &&& named && s.consumer_groups.contains_key(group_id) ==> after == s && (answer is Ok <==> consumers.contains_key(member_id)
                && consumers[member_id].member_epoch == epoch)
            &&& named && !s.consumer_groups.contains_key(group_id) && s.streams_groups.contains_key(group_id) ==> (answer is Ok <==> streams is None
                || streams->0.refusal is None)
            &&& named && !s.consumer_groups.contains_key(group_id) && !s.streams_groups.contains_key(group_id) ==> (answer is Ok
                <==> s.classic.groups.contains_key(group_id) && !classic.rebalance_pending && classic.generation_id == epoch
                && classic.members.contains_key(member_id))
            &&& after.log == s.log && after.consumer_groups == s.consumer_groups && after.share_groups == s.share_groups
        }),
{
    if s.classic.groups.contains_key(group_id) {
        classic_member_laws::heartbeats_keep_seats(s.classic, group_id, epoch, member_id, None, now, member_id);
    }
}

/// Between which offsets a share group may be done with records: from where it reads, within the log, to the
/// end of the log; nowhere, where it has no start or there is no log.
pub proof fn delivery_lies_within_the_log(s: StoreView, p: PartitionKeyView, recorded: Option<i64>)
    ensures
        ({
            let range = share_groups::delivery_range(s, p, recorded);
            let log = s.log.partitions[p];
            &&& recorded is None || !s.log.partitions.contains_key(p) ==> range is None
            &&& recorded is Some && recorded->0 >= 0 && s.log.partitions.contains_key(p) ==> range is Some
            &&& range is Some ==> (range->0).1 == log.next_offset && (range->0).0 >= 0 && (range->0).0 >= log.log_start_offset && (range->0).0
                >= recorded->0 && ((range->0).0 == recorded->0 || (range->0).0 == log.log_start_offset)
        }),
{
}

/// Under which keys the state of share groups is kept: under those of partitions that exist.
pub proof fn share_state_is_kept_for_partitions(s: StoreView, topic_id: u128, partition: i32, refusal: Option<ControlErrorView>)
    ensures
        share_groups::state_key_verdict(s, topic_id, partition, refusal) is Ok <==> refusal is None && topics::topic_under(s.log, topic_id) is Some
            && partition < topics::topic_under(s.log, topic_id)->0.partitions,
        refusal is Some ==> share_groups::state_key_verdict(s, topic_id, partition, refusal) == Err::<(), ControlErrorView>(refusal->0),
{
}

/// Of which partitions the starts of a share group are told: of those asked for, or of all that are recorded
/// and whose topics exist.
pub proof fn starts_are_told_of_recorded_partitions(s: StoreView, recorded: Seq<(u128, i32)>, i: int)
    requires
        0 <= i < recorded.len(),
    ensures
        ({
            let told = share_groups::told_partitions(s, None, recorded);
            let topic = topics::topic_under(s.log, recorded[i].0);
            &&& topic is Some ==> told.contains(PartitionKeyView { topic: topic->0.name, partition: recorded[i].1 })
            &&& told.len() <= recorded.len()
            &&& forall|k: int|
                0 <= k < told.len() ==> exists|j: int|
                    0 <= j < recorded.len() && topics::topic_under(s.log, (#[trigger] recorded[j]).0) is Some && (#[trigger] told[k]).topic
                        == topics::topic_under(s.log, recorded[j].0)->0.name && told[k].partition == recorded[j].1
        }),
    decreases recorded.len(),
{
    let rest = recorded.drop_last();
    let last = recorded.len() - 1;
    let told = share_groups::told_partitions(s, None, recorded);
    let before = share_groups::told_partitions(s, None, rest);
    assert(recorded.last() == recorded[last]);
    if rest.len() > 0 {
        starts_are_told_of_recorded_partitions(s, rest, if i < last { i } else { 0 });
    }
    assert forall|k: int| 0 <= k < told.len() implies exists|j: int|
        0 <= j < recorded.len() && topics::topic_under(s.log, (#[trigger] recorded[j]).0) is Some && (#[trigger] told[k]).topic
            == topics::topic_under(s.log, recorded[j].0)->0.name && told[k].partition == recorded[j].1 by {
        if k < before.len() {
            assert(told[k] == before[k]);
            let j = choose|j: int|
                0 <= j < rest.len() && topics::topic_under(s.log, (#[trigger] rest[j]).0) is Some && before[k].topic == topics::topic_under(
                    s.log,
                    rest[j].0,
                )->0.name && before[k].partition == rest[j].1;
            assert(recorded[j] == rest[j]);
        } else {
            assert(recorded[last].1 == told[k].partition);
        }
    }
    let topic = topics::topic_under(s.log, recorded[i].0);
    if topic is Some {
        let one = PartitionKeyView { topic: topic->0.name, partition: recorded[i].1 };
        if i < last {
            assert(rest[i] == recorded[i]);
            let k = choose|k: int| 0 <= k < before.len() && before[k] == one;
            assert(told[k] == one);
        } else {
            assert(told[before.len() as int] == one);
        }
    }
}

} // verus!
