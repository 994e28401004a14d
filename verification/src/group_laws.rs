//! What members of groups may store, and what is told of groups.

use crate::classic_groups::MemoryGroupView;
use crate::consumer_queries;
use crate::consumer_types;
use crate::consumer_types::{ConsumerGroupStateView, ConsumerMemberStateView, ConsumerTopicAssignmentView};
use crate::error::ControlErrorView;
use crate::group_admin;
use crate::group_offsets;
use crate::log_types::{CommittedOffsetView, LogStateView, OffsetCommitView};
use crate::offsets;
use crate::partition::PartitionKeyView;
use crate::share_groups;
use crate::sorted_map;
use crate::store::{ShareMemberView, StoreView, StreamsCheckView};
use crate::time;
use crate::topics;
use crate::consumer_share_laws;
use vstd::prelude::*;

verus! {

/// Whether a list of assignments names a topic with some id.
pub open spec fn calls(list: Seq<ConsumerTopicAssignmentView>, topic: Seq<char>, id: u128) -> bool {
    exists|i: int| 0 <= i < list.len() && (#[trigger] list[i]).topic_name == topic && list[i].topic_id == id
}

/// Whether a partition was given to a member in some epoch or earlier: the member knows the topic under
/// some id from one of its assignments, and noted the epoch in which it got the partition.
pub open spec fn had_by(member: ConsumerMemberStateView, epoch: i32, p: PartitionKeyView) -> bool {
    exists|id: u128|
        (calls(member.owned_assignment, p.topic, id) || calls(member.target_assignment, p.topic, id) || calls(
            member.current_assignment,
            p.topic,
            id,
        )) && #[trigger] member.assignment_epochs.contains_key((id, p.partition)) && member.assignment_epochs[(id, p.partition)] <= epoch
}

proof fn listed_ids_are_called(list: Seq<ConsumerTopicAssignmentView>, before: Map<Seq<char>, u128>, topic: Seq<char>)
    ensures
        consumer_queries::ids_in(list, before).contains_key(topic) ==> calls(list, topic, consumer_queries::ids_in(list, before)[topic]) || (
        before.contains_key(topic) && before[topic] == consumer_queries::ids_in(list, before)[topic]),
    decreases list.len(),
{
    if list.len() > 0 {
        let rest = list.drop_last();
        listed_ids_are_called(rest, before, topic);
        let id = consumer_queries::ids_in(list, before)[topic];
        if consumer_queries::ids_in(list, before).contains_key(topic) {
            if list.last().topic_name == topic {
                assert(list[list.len() - 1].topic_name == topic && list[list.len() - 1].topic_id == id);
            } else if calls(rest, topic, id) {
                let i = choose|i: int| 0 <= i < rest.len() && (#[trigger] rest[i]).topic_name == topic && rest[i].topic_id == id;
                assert(list[i] == rest[i]);
            }
        }
    }
}

proof fn called_ids_are_listed(list: Seq<ConsumerTopicAssignmentView>, before: Map<Seq<char>, u128>, topic: Seq<char>, id: u128)
    ensures
        calls(list, topic, id) || before.contains_key(topic) ==> consumer_queries::ids_in(list, before).contains_key(topic),
    decreases list.len(),
{
    if list.len() > 0 {
        let rest = list.drop_last();
        called_ids_are_listed(rest, before, topic, id);
        if calls(list, topic, id) && list.last().topic_name != topic {
            let i = choose|i: int| 0 <= i < list.len() && (#[trigger] list[i]).topic_name == topic && list[i].topic_id == id;
            assert(list.last() == list[list.len() - 1]);
            assert(rest[i] == list[i]);
        }
    }
}

/// A member that lags behind may store an offset for a partition that it got in the epoch that it sends,
/// or before, and still knows.
pub proof fn members_that_lag_store_what_they_had(
    group: ConsumerGroupStateView,
    member_id: Seq<char>,
    epoch: i32,
    partitions: Seq<PartitionKeyView>,
    i: int,
    id: u128,
)
    requires
        0 <= i < partitions.len(),
        group.members.contains_key(member_id),
        epoch <= group.members[member_id].member_epoch,
        ({
            let member = group.members[member_id];
            let topic = partitions[i].topic;
            &&& calls(member.owned_assignment, topic, id) || calls(member.target_assignment, topic, id) || calls(
                member.current_assignment,
                topic,
                id,
            )
            &&& forall|other: u128|
                #![trigger calls(member.owned_assignment, topic, other)]
                #![trigger calls(member.target_assignment, topic, other)]
                #![trigger calls(member.current_assignment, topic, other)]
                calls(member.owned_assignment, topic, other) || calls(member.target_assignment, topic, other) || calls(
                    member.current_assignment,
                    topic,
                    other,
                ) ==> other == id
            &&& member.assignment_epochs.contains_key((id, partitions[i].partition))
            &&& member.assignment_epochs[(id, partitions[i].partition)] <= epoch
        }),
    ensures
        ({
            let verdict = consumer_queries::commit_verdict(group, member_id, epoch, partitions);
            verdict is Ok && verdict->Ok_0[i]
        }),
{
    let member = group.members[member_id];
    let topic = partitions[i].topic;
    let first = consumer_queries::ids_in(member.current_assignment, Map::empty());
    let second = consumer_queries::ids_in(member.target_assignment, first);
    listed_ids_are_called(member.current_assignment, Map::empty(), topic);
    listed_ids_are_called(member.target_assignment, first, topic);
    listed_ids_are_called(member.owned_assignment, second, topic);
    called_ids_are_listed(member.current_assignment, Map::empty(), topic, id);
    called_ids_are_listed(member.target_assignment, first, topic, id);
    called_ids_are_listed(member.owned_assignment, second, topic, id);
    assert(consumer_queries::may_commit(member, epoch, partitions[i]));
}

/// For which partitions a member of a consumer group may store offsets: for all, with its present epoch;
/// for those that it was given in the epoch that it sends or before, with an earlier one; and for none
/// with a later one, or where it is no member. An empty group takes offsets from outside.
pub proof fn members_store_what_they_have(
    group: ConsumerGroupStateView,
    member_id: Seq<char>,
    epoch: i32,
    partitions: Seq<PartitionKeyView>,
    i: int,
)
    requires
        0 <= i < partitions.len(),
    ensures
        ({
            let verdict = consumer_queries::commit_verdict(group, member_id, epoch, partitions);
            let member = group.members[member_id];
            let outside = epoch < 0 && forall|x: Seq<char>| !(#[trigger] group.members.contains_key(x));
            &&& verdict is Ok <==> outside || (group.members.contains_key(member_id) && epoch <= member.member_epoch)
            &&& verdict is Ok ==> verdict->Ok_0.len() == partitions.len()
            &&& verdict is Ok && outside ==> verdict->Ok_0[i]
            &&& verdict is Ok && !outside && epoch == member.member_epoch ==> verdict->Ok_0[i]
            &&& verdict is Ok && !outside && epoch < member.member_epoch && verdict->Ok_0[i] ==> had_by(member, epoch, partitions[i])
        }),
{
    let member = group.members[member_id];
    if epoch < 0 {
        if group.members == Map::<Seq<char>, ConsumerMemberStateView>::empty() {
        } else if forall|x: Seq<char>| !(#[trigger] group.members.contains_key(x)) {
            assert(group.members =~= Map::<Seq<char>, ConsumerMemberStateView>::empty());
        }
    }
    let topic = partitions[i].topic;
    let first = consumer_queries::ids_in(member.current_assignment, Map::empty());
    let second = consumer_queries::ids_in(member.target_assignment, first);
    listed_ids_are_called(member.current_assignment, Map::empty(), topic);
    listed_ids_are_called(member.target_assignment, first, topic);
    listed_ids_are_called(member.owned_assignment, second, topic);
    if consumer_queries::may_commit(member, epoch, partitions[i]) {
        let id = consumer_queries::member_topic_ids(member)[topic];
        assert(member.assignment_epochs.contains_key((id, partitions[i].partition)));
    }
}

/// In a transaction it is all or nothing: a member of a consumer group stores its offsets just where it
/// may store every one of them.
pub proof fn transactions_store_all_or_nothing(
    group: ConsumerGroupStateView,
    member_id: Seq<char>,
    instance: Option<Seq<char>>,
    epoch: i32,
    partitions: Seq<PartitionKeyView>,
)
    ensures
        ({
            let verdict = consumer_queries::transaction_verdict(group, member_id, instance, epoch, partitions);
            let each = consumer_queries::commit_verdict(group, member_id, epoch, partitions);
            verdict is Ok <==> (epoch == -1 && member_id.len() == 0 && instance is None) || (each is Ok && forall|i: int|
                0 <= i < partitions.len() ==> #[trigger] each->Ok_0[i])
        }),
{
}

proof fn accepted_offsets_were_sent(list: Seq<OffsetCommitView>, verdicts: Seq<bool>, commit: OffsetCommitView)
    requires
        list.len() <= verdicts.len(),
    ensures
        group_offsets::accepted(list, verdicts).contains(commit) <==> exists|i: int| 0 <= i < list.len() && #[trigger] list[i] == commit && verdicts[i],
    decreases list.len(),
{
    if list.len() > 0 {
        let rest = list.drop_last();
        let last = list.len() - 1;
        accepted_offsets_were_sent(rest, verdicts, commit);
        let all = group_offsets::accepted(list, verdicts);
        let before = group_offsets::accepted(rest, verdicts);
        if before.contains(commit) {
            let i = choose|i: int| 0 <= i < rest.len() && #[trigger] rest[i] == commit && verdicts[i];
            assert(list[i] == commit);
            let j = choose|j: int| 0 <= j < before.len() && before[j] == commit;
            assert(all[j] == commit);
        }
        if verdicts[last] {
            assert(all[before.len() as int] == list[last]);
        }
        if all.contains(commit) {
            let j = choose|j: int| 0 <= j < all.len() && all[j] == commit;
            if j < before.len() {
                assert(before[j] == commit);
            } else {
                assert(list[last] == commit);
            }
        }
        if exists|i: int| 0 <= i < list.len() && #[trigger] list[i] == commit && verdicts[i] {
            let i = choose|i: int| 0 <= i < list.len() && #[trigger] list[i] == commit && verdicts[i];
            if i < last {
                assert(rest[i] == commit);
            }
        }
    }
}

/// What is left of what a consumer member stores: of the offsets that it sends, those that it may store
/// are handed on, and no others, and it is told which. Members need a request of version nine or later.
pub proof fn refused_offsets_are_not_stored(
    s: StoreView,
    group_id: Seq<char>,
    member_id: Seq<char>,
    instance: Option<Seq<char>>,
    epoch: i32,
    api_version: i16,
    list: Seq<OffsetCommitView>,
    streams: Option<StreamsCheckView>,
    now: int,
    p: PartitionKeyView,
)
    requires
        s.consumer_groups.contains_key(group_id),
    ensures
        ({
            let (after, answer) = group_offsets::member_offsets_committed(
                s,
                group_id,
                member_id,
                instance,
                epoch,
                api_version,
                list,
                streams,
                now,
            );
            let key = (group_id, p);
            &&& answer is Ok ==> api_version >= 9 && answer->Ok_0.len() == list.len()
            &&& after.log.offsets.contains_key(key) && (!s.log.offsets.contains_key(key) || after.log.offsets[key] != s.log.offsets[key])
                ==> exists|i: int|
                0 <= i < list.len() && (#[trigger] list[i]).partition == p && list[i].offset == after.log.offsets[key].offset
                    && list[i].metadata == after.log.offsets[key].metadata && list[i].leader_epoch == after.log.offsets[key].leader_epoch
                    && after.log.offsets[key].commit_timestamp_ms == time::whole_millis(now) && (answer is Ok ==> answer->Ok_0[i])
            &&& answer is Ok ==> forall|i: int|
                0 <= i < list.len() && (#[trigger] list[i]).partition == p && answer->Ok_0[i] ==> after.log.offsets.contains_key(key)
        }),
{
    let (after, answer) = group_offsets::member_offsets_committed(s, group_id, member_id, instance, epoch, api_version, list, streams, now);
    let group = s.consumer_groups[group_id];
    let now_ms = time::whole_millis(now) as i64;
    let verdict = consumer_queries::commit_verdict(group, member_id, epoch, group_offsets::partitions_of(list));
    if api_version >= 9 && verdict is Ok {
        let some = group_offsets::accepted(list, verdict->Ok_0);
        if offsets::offsets_refusal(s.log, some) is None && group_id.len() > 0 {
            what_is_stored_was_sent(s.log.offsets, group_id, some, now_ms, p);
            let key = (group_id, p);
            if after.log.offsets.contains_key(key) && (!s.log.offsets.contains_key(key) || after.log.offsets[key] != s.log.offsets[key]) {
                let j = choose|j: int|
                    0 <= j < some.len() && (#[trigger] some[j]).partition == p && some[j].offset == after.log.offsets[key].offset
                        && some[j].metadata == after.log.offsets[key].metadata && some[j].leader_epoch == after.log.offsets[key].leader_epoch
                        && after.log.offsets[key].commit_timestamp_ms == now_ms;
                assert(some.contains(some[j]));
                accepted_offsets_were_sent(list, verdict->Ok_0, some[j]);
                let i = choose|i: int| 0 <= i < list.len() && #[trigger] list[i] == some[j] && (verdict->Ok_0)[i];
                assert(list[i].partition == p);
            }
            if answer is Ok {
                assert forall|i: int| 0 <= i < list.len() && (#[trigger] list[i]).partition == p && answer->Ok_0[i]
                    implies after.log.offsets.contains_key(key) by {
                    accepted_offsets_were_sent(list, verdict->Ok_0, list[i]);
                    let j = choose|j: int| 0 <= j < some.len() && some[j] == list[i];
                    assert(some[j].partition == p);
                }
            }
        }
    }
}

proof fn what_is_stored_was_sent(
    stored: Map<(Seq<char>, PartitionKeyView), CommittedOffsetView>,
    group_id: Seq<char>,
    list: Seq<OffsetCommitView>,
    now_ms: i64,
    p: PartitionKeyView,
)
    ensures
        ({
            let (after, answer) = offsets::offsets_stored(stored, group_id, list, now_ms);
            let key = (group_id, p);
            &&& stored.contains_key(key) ==> after.contains_key(key)
            &&& after.contains_key(key) && (!stored.contains_key(key) || after[key] != stored[key]) ==> exists|j: int|
                0 <= j < list.len() && (#[trigger] list[j]).partition == p && list[j].offset == after[key].offset && list[j].metadata
                    == after[key].metadata && list[j].leader_epoch == after[key].leader_epoch && after[key].commit_timestamp_ms == now_ms
            &&& answer is Ok ==> forall|j: int| 0 <= j < list.len() && (#[trigger] list[j]).partition == p ==> after.contains_key(key)
        }),
    decreases list.len(),
{
    if list.len() > 0 {
        let rest = list.drop_last();
        what_is_stored_was_sent(stored, group_id, rest, now_ms, p);
        let (before, outcome) = offsets::offsets_stored(stored, group_id, rest, now_ms);
        let (after, answer) = offsets::offsets_stored(stored, group_id, list, now_ms);
        let key = (group_id, p);
        let last = list.len() - 1;
        assert(list[last] == list.last());
        if after.contains_key(key) && (!stored.contains_key(key) || after[key] != stored[key]) {
            if outcome is Ok && answer is Ok && list.last().partition == p {
                assert(list[last].partition == p);
            } else {
                let j = choose|j: int|
                    0 <= j < rest.len() && (#[trigger] rest[j]).partition == p && rest[j].offset == after[key].offset && rest[j].metadata
                        == after[key].metadata && rest[j].leader_epoch == after[key].leader_epoch && after[key].commit_timestamp_ms == now_ms;
                assert(list[j] == rest[j]);
            }
        }
        if answer is Ok {
            assert forall|j: int| 0 <= j < list.len() && (#[trigger] list[j]).partition == p implies after.contains_key(key) by {
                if j < last {
                    assert(rest[j] == list[j]);
                }
            }
        }
    }
}

/// Which offsets are accepted at all: none that is negative, none for a partition that does not exist,
/// and none for a group without a name. One that is to be kept for some time expires so long after it
/// was stored.
pub proof fn offsets_are_well_formed(s: LogStateView, group_id: Seq<char>, list: Seq<OffsetCommitView>, now_ms: i64, i: int)
    requires
        offsets::offsets_committed(s, group_id, list, now_ms).1 is Ok,
        0 <= i < list.len(),
        forall|j: int| i < j < list.len() ==> (#[trigger] list[j]).partition != list[i].partition,
    ensures
        ({
            let after = offsets::offsets_committed(s, group_id, list, now_ms).0;
            let stored = after.offsets[(group_id, list[i].partition)];
            &&& group_id.len() > 0
            &&& list[i].offset >= 0
            &&& s.partitions.contains_key(list[i].partition)
            &&& after.offsets.contains_key((group_id, list[i].partition))
            &&& stored.offset == list[i].offset
            &&& stored.leader_epoch == list[i].leader_epoch
            &&& stored.metadata == list[i].metadata
            &&& stored.commit_timestamp_ms == now_ms
            &&& match list[i].retention_time_ms {
                None => stored.expire_timestamp_ms is None,
                Some(kept) => kept >= 0 && stored.expire_timestamp_ms is Some && stored.expire_timestamp_ms->0 == now_ms + kept,
            }
        }),
{
    refusals_are_found(s, list, i);
    the_last_is_stored(s.offsets, group_id, list, now_ms, i);
}

proof fn refusals_are_found(s: LogStateView, list: Seq<OffsetCommitView>, i: int)
    requires
        offsets::offsets_refusal(s, list) is None,
        0 <= i < list.len(),
    ensures
        list[i].offset >= 0,
        s.partitions.contains_key(list[i].partition),
    decreases list.len(),
{
    if i > 0 {
        assert(list.drop_first()[i - 1] == list[i]);
        refusals_are_found(s, list.drop_first(), i - 1);
    }
}

proof fn the_last_is_stored(
    stored: Map<(Seq<char>, PartitionKeyView), CommittedOffsetView>,
    group_id: Seq<char>,
    list: Seq<OffsetCommitView>,
    now_ms: i64,
    i: int,
)
    requires
        offsets::offsets_stored(stored, group_id, list, now_ms).1 is Ok,
        0 <= i < list.len(),
        forall|j: int| i < j < list.len() ==> (#[trigger] list[j]).partition != list[i].partition,
    ensures
        ({
            let after = offsets::offsets_stored(stored, group_id, list, now_ms).0;
            let key = (group_id, list[i].partition);
            &&& after.contains_key(key)
            &&& offsets::expiry(now_ms, list[i].retention_time_ms) is Ok
            &&& after[key] == offsets::stored_offset(list[i], now_ms, offsets::expiry(now_ms, list[i].retention_time_ms)->Ok_0)
        }),
    decreases list.len(),
{
    let last = list.len() - 1;
    if i < last {
        let rest = list.drop_last();
        assert forall|j: int| i < j < rest.len() implies (#[trigger] rest[j]).partition != rest[i].partition by {
            assert(list[j] == rest[j]);
        }
        the_last_is_stored(stored, group_id, rest, now_ms, i);
        assert(list[last].partition != list[i].partition);
        assert(list[last] == list.last());
    }
}

/// Which offsets a group may not delete: those of topics to which a member subscribes. The group has to
/// be known, and the partitions have to exist; then the others that were asked for are gone.
pub proof fn offsets_of_topics_in_use_are_kept(s: StoreView, group_id: Seq<char>, list: Seq<PartitionKeyView>, member_id: Seq<char>, i: int)
    requires
        0 <= i < list.len(),
    ensures
        ({
            let (after, answer) = group_offsets::offsets_deleted(s, group_id, list);
            let key = (group_id, list[i]);
            let topic = list[i].topic;
            let classic = s.classic.groups.contains_key(group_id) && s.classic.groups[group_id].members.contains_key(member_id)
                && s.classic.groups[group_id].members[member_id].subscribed_topics.contains(topic);
            let consumer = s.consumer_groups.contains_key(group_id) && s.consumer_groups[group_id].members.contains_key(member_id)
                && s.consumer_groups[group_id].members[member_id].subscribed_topic_names.contains(topic);
            &&& answer is Err ==> after == s
            &&& answer is Ok && (classic || consumer) ==> answer->Ok_0.contains_key(list[i]) && after.log.offsets.contains_key(key)
                == s.log.offsets.contains_key(key)
            &&& answer is Ok && answer->Ok_0.contains_key(list[i]) ==> exists|x: Seq<char>|
                #![trigger s.classic.groups[group_id].members[x]]
                #![trigger s.consumer_groups[group_id].members[x]]
                (s.classic.groups.contains_key(group_id) && s.classic.groups[group_id].members.contains_key(x)
                    && s.classic.groups[group_id].members[x].subscribed_topics.contains(topic)) || (s.consumer_groups.contains_key(group_id)
                    && s.consumer_groups[group_id].members.contains_key(x) && (
                s.consumer_groups[group_id].members[x].subscribed_topic_names.contains(topic)
                    || s.consumer_groups[group_id].members[x].subscribed_topic_regex is Some))
        }),
{
    let (after, answer) = group_offsets::offsets_deleted(s, group_id, list);
    let topic = list[i].topic;
    if s.classic.groups.contains_key(group_id) && s.classic.groups[group_id].members.contains_key(member_id)
        && s.classic.groups[group_id].members[member_id].subscribed_topics.contains(topic) {
        assert(group_offsets::classics_subscribe(s.classic.groups[group_id], topic));
    }
    if s.consumer_groups.contains_key(group_id) && s.consumer_groups[group_id].members.contains_key(member_id)
        && s.consumer_groups[group_id].members[member_id].subscribed_topic_names.contains(topic) {
        assert(group_offsets::consumer_reads(s.consumer_groups[group_id].members[member_id], topic));
        assert(group_offsets::consumers_subscribe(s.consumer_groups[group_id], topic));
    }
    if answer is Ok && answer->Ok_0.contains_key(list[i]) {
        if s.classic.groups.contains_key(group_id) && group_offsets::classics_subscribe(s.classic.groups[group_id], topic) {
            let m = s.classic.groups[group_id].members;
            let x = choose|x: Seq<char>| #[trigger] m.contains_key(x) && m[x].subscribed_topics.contains(topic);
            assert(s.classic.groups[group_id].members[x].subscribed_topics.contains(topic));
        } else {
            let m = s.consumer_groups[group_id].members;
            let x = choose|x: Seq<char>| #[trigger] m.contains_key(x) && group_offsets::consumer_reads(m[x], topic);
            assert(s.consumer_groups[group_id].members[x] == m[x]);
        }
    }
}

/// A group is deleted just where it is known, by itself or by its offsets, and nobody is a member.
pub proof fn only_empty_groups_are_deleted(s: StoreView, id: Seq<char>, member_id: Seq<char>, key: (Seq<char>, PartitionKeyView))
    ensures
        ({
            let (after, answer) = group_admin::group_deleted(s, id);
            let is_member = (s.classic.groups.contains_key(id) && s.classic.groups[id].members.contains_key(member_id)) || (
            s.consumer_groups.contains_key(id) && s.consumer_groups[id].members.contains_key(member_id)) || (s.streams_groups.contains_key(id)
                && s.streams_groups[id].members.contains_key(member_id)) || (s.share_groups.contains_key(id)
                && s.share_groups[id].members.contains_key(member_id));
            let known = s.classic.groups.contains_key(id) || s.consumer_groups.contains_key(id) || s.streams_groups.contains_key(id)
                || s.share_groups.contains_key(id) || (key.0 == id && s.log.offsets.contains_key(key));
            &&& is_member ==> answer == Err::<(), ControlErrorView>(ControlErrorView::NonEmptyGroup(id)) && after == s
            &&& known && answer is Err ==> answer == Err::<(), ControlErrorView>(ControlErrorView::NonEmptyGroup(id))
            &&& answer is Ok && key.0 == id ==> !after.log.offsets.contains_key(key)
            &&& key.0 != id && s.log.offsets.contains_key(key) ==> after.log.offsets.contains_key(key) && after.log.offsets[key]
                == s.log.offsets[key]
            &&& member_id != id ==> after.consumer_groups.contains_key(member_id) == s.consumer_groups.contains_key(member_id)
                && after.classic.groups.contains_key(member_id) == s.classic.groups.contains_key(member_id)
        }),
{
    if s.classic.groups.contains_key(id) && s.classic.groups[id].members.contains_key(member_id) {
        assert(s.classic.groups[id].members.dom().contains(member_id));
    }
    if s.consumer_groups.contains_key(id) && s.consumer_groups[id].members.contains_key(member_id) {
        assert(s.consumer_groups[id].members.dom().contains(member_id));
    }
    if s.streams_groups.contains_key(id) && s.streams_groups[id].members.contains_key(member_id) {
        assert(s.streams_groups[id].members.dom().contains(member_id));
    }
    if s.share_groups.contains_key(id) && s.share_groups[id].members.contains_key(member_id) {
        assert(s.share_groups[id].members.dom().contains(member_id));
    }
    if key.0 == id && s.log.offsets.contains_key(key) {
        assert(group_admin::has_offsets(s.log.offsets, id));
    }
}

/// Whether a member of a consumer group has all that is meant for it and nothing else, in the group's
/// assignment epoch; one that is away for a while is not waited for.
pub open spec fn has_converged(group: ConsumerGroupStateView, member: ConsumerMemberStateView) -> bool {
    member.member_epoch == -2 || (member.member_epoch == group.assignment_epoch && forall|id: u128, p: i32|
        #![trigger consumer_share_laws::lists(member.target_assignment, id, p)]
        consumer_share_laws::lists(member.target_assignment, id, p) == consumer_share_laws::lists(member.current_assignment, id, p)
            && consumer_share_laws::lists(member.owned_assignment, id, p) == consumer_share_laws::lists(member.current_assignment, id, p))
}

/// In which state a consumer group is told to be: empty without members; assigning while its assignment
/// is behind the group; stable once every member has converged; and reconciling otherwise.
pub proof fn consumer_states_are_told(group: ConsumerGroupStateView)
    ensures
        ({
            let state = consumer_queries::state_name(group);
            let empty = forall|x: Seq<char>| !(#[trigger] group.members.contains_key(x));
            let behind = group.group_epoch > group.assignment_epoch;
            let settled = forall|x: Seq<char>| #[trigger] group.members.contains_key(x) ==> has_converged(group, group.members[x]);
            &&& empty ==> state == "Empty"@
            &&& !empty && behind ==> state == "Assigning"@
            &&& !empty && !behind && settled ==> state == "Stable"@
            &&& !empty && !behind && !settled ==> state == "Reconciling"@
        }),
{
    if forall|x: Seq<char>| !(#[trigger] group.members.contains_key(x)) {
        assert(group.members =~= Map::<Seq<char>, ConsumerMemberStateView>::empty());
    }
    assert forall|x: Seq<char>| #[trigger] group.members.contains_key(x) implies consumer_queries::settled(group, group.members[x])
        == has_converged(group, group.members[x]) by {
        let member = group.members[x];
        sets_are_lists(member.target_assignment);
        sets_are_lists(member.current_assignment);
        sets_are_lists(member.owned_assignment);
        let target = consumer_types::assignment_set(member.target_assignment);
        let current = consumer_types::assignment_set(member.current_assignment);
        let owned = consumer_types::assignment_set(member.owned_assignment);
        if has_converged(group, member) && member.member_epoch != -2 {
            assert forall|p: (u128, i32)| target.contains(p) == current.contains(p) && owned.contains(p) == current.contains(p) by {
                assert(consumer_share_laws::lists(member.target_assignment, p.0, p.1) == target.contains((p.0, p.1)));
                assert(consumer_share_laws::lists(member.current_assignment, p.0, p.1) == current.contains((p.0, p.1)));
                assert(consumer_share_laws::lists(member.owned_assignment, p.0, p.1) == owned.contains((p.0, p.1)));
            }
            assert(target =~= current);
            assert(owned =~= current);
        }
        if consumer_queries::settled(group, member) && member.member_epoch != -2 {
            assert forall|id: u128, p: i32| #![trigger consumer_share_laws::lists(member.target_assignment, id, p)]
                consumer_share_laws::lists(member.target_assignment, id, p) == consumer_share_laws::lists(member.current_assignment, id, p)
                    && consumer_share_laws::lists(member.owned_assignment, id, p) == consumer_share_laws::lists(member.current_assignment, id, p) by {
                assert(consumer_share_laws::lists(member.current_assignment, id, p) == current.contains((id, p)));
                assert(consumer_share_laws::lists(member.owned_assignment, id, p) == owned.contains((id, p)));
            }
        }
    }
    if consumer_queries::all_settled(group) {
        assert forall|x: Seq<char>| #[trigger] group.members.contains_key(x) implies has_converged(group, group.members[x]) by {
            assert(consumer_queries::settled(group, group.members[x]));
        }
    }
}

proof fn sets_are_lists(list: Seq<ConsumerTopicAssignmentView>)
    ensures
        forall|id: u128, p: i32|
            #![trigger consumer_share_laws::lists(list, id, p)]
            consumer_share_laws::lists(list, id, p) == consumer_types::assignment_set(list).contains((id, p)),
{
}

/// In which state a classic group is told to be: preparing while a rebalance is under way; else empty
/// without members, stable once every member has an assignment, and completing otherwise.
pub proof fn classic_states_are_told(group: MemoryGroupView)
    requires
        group.members.dom().finite(),
    ensures
        ({
            let state = group_admin::state_of(group);
            let empty = forall|x: Seq<char>| !(#[trigger] group.members.contains_key(x));
            let served = forall|x: Seq<char>| #[trigger] group.members.contains_key(x) ==> group.assignments.contains_key(x);
            &&& group.rebalance_pending ==> state == "PreparingRebalance"@
            &&& !group.rebalance_pending && empty ==> state == "Empty"@
            &&& !group.rebalance_pending && !empty && served ==> state == "Stable"@
            &&& !group.rebalance_pending && !empty && !served ==> state == "CompletingRebalance"@
        }),
{
    let some = group_admin::assigned_members(group);
    let all = group.members.dom();
    assert(some.dom().subset_of(all));
    vstd::set_lib::lemma_len_subset(some.dom(), all);
    if forall|x: Seq<char>| !(#[trigger] group.members.contains_key(x)) {
        assert(all =~= Set::empty());
    } else if all.len() == 0 {
        all.lemma_len0_is_empty();
        let x = choose|x: Seq<char>| #[trigger] group.members.contains_key(x);
        assert(all.contains(x));
    }
    if forall|x: Seq<char>| #[trigger] group.members.contains_key(x) ==> group.assignments.contains_key(x) {
        assert(some.dom() =~= all);
    } else {
        let x = choose|x: Seq<char>| #[trigger] group.members.contains_key(x) && !group.assignments.contains_key(x);
        assert(some.dom().subset_of(all.remove(x)));
        vstd::set_lib::lemma_len_subset(some.dom(), all.remove(x));
    }
}

/// Every group is listed, once, under its own kind, and so is one of which only offsets are left.
pub proof fn groups_are_listed(
    s: StoreView,
    streams: Map<Seq<char>, Seq<char>>,
    shares: Map<Seq<char>, Seq<char>>,
    id: Seq<char>,
    key: (Seq<char>, PartitionKeyView),
)
    requires
        group_admin::group_ids(s, streams, shares).finite(),
    ensures
        ({
            let all = group_admin::listing(s, streams, shares);
            let told = exists|i: int| 0 <= i < all.len() && (#[trigger] all[i]).group_id == id;
            &&& forall|i: int, j: int| 0 <= i < j < all.len() ==> (#[trigger] all[i]).group_id != (#[trigger] all[j]).group_id
            &&& shares.contains_key(id) || streams.contains_key(id) || s.consumer_groups.contains_key(id) || s.classic.groups.contains_key(id) || (
            key.0 == id && s.log.offsets.contains_key(key)) ==> told
            &&& forall|i: int|
                0 <= i < all.len() && (#[trigger] all[i]).group_id == id ==> {
                    &&& shares.contains_key(id) ==> all[i].group_type == "Share"@ && all[i].state == shares[id]
                    &&& !shares.contains_key(id) && streams.contains_key(id) ==> all[i].group_type == "Streams"@ && all[i].state == streams[id]
                    &&& !shares.contains_key(id) && !streams.contains_key(id) && s.consumer_groups.contains_key(id) ==> all[i].group_type
                        == "Consumer"@ && all[i].protocol_type == "consumer"@ && all[i].state == consumer_queries::state_name(
                        s.consumer_groups[id],
                    )
                    &&& !shares.contains_key(id) && !streams.contains_key(id) && !s.consumer_groups.contains_key(id)
                        && s.classic.groups.contains_key(id) ==> all[i].group_type == "Classic"@ && all[i].protocol_type
                        == s.classic.groups[id].protocol_type && all[i].state == group_admin::state_of(s.classic.groups[id])
                    &&& !shares.contains_key(id) && !streams.contains_key(id) && !s.consumer_groups.contains_key(id)
                        && !s.classic.groups.contains_key(id) ==> all[i].group_type == "Classic"@ && all[i].state == "Empty"@
                }
        }),
{
    let known = group_admin::group_ids(s, streams, shares);
    let ids = sorted_map::sorted_keys::<String>(known);
    sorted_map::finite_sets_are_listed::<String>(known);
    sorted_map::strictly_sorted_unique::<String>(ids);
    let all = group_admin::listing(s, streams, shares);
    assert forall|i: int| 0 <= i < all.len() implies (#[trigger] all[i]).group_id == ids[i] && known.contains(ids[i]) by {
        assert(ids.to_set().contains(ids[i]));
    }
    if key.0 == id && s.log.offsets.contains_key(key) {
        assert(group_admin::has_offsets(s.log.offsets, id));
    }
    if known.contains(id) {
        assert(ids.to_set().contains(id));
        let i = choose|i: int| 0 <= i < ids.len() && ids[i] == id;
        assert(all[i].group_id == id);
    }
}

/// What a member of a share group may read: the partitions that it was assigned, within the bounds of
/// their logs, and no others.
pub proof fn share_members_read_what_they_were_assigned(s: StoreView, group_id: Seq<char>, member_id: Seq<char>, topic_id: u128, partition: i32)
    ensures
        ({
            let bounds = share_groups::readable_bounds(s, group_id, member_id, topic_id, partition);
            let group = s.share_groups[group_id];
            let list = group.members[member_id].assignment;
            let assigned = s.share_groups.contains_key(group_id) && group.members.contains_key(member_id) && exists|i: int|
                0 <= i < list.len() && (#[trigger] list[i]).topic_id == topic_id && list[i].partitions.contains(partition);
            &&& bounds is Ok ==> assigned
            &&& bounds is Ok ==> topics::topic_under(s.log, topic_id) is Some && {
                let p = PartitionKeyView { topic: topics::topic_under(s.log, topic_id)->0.name, partition };
                s.log.partitions.contains_key(p) && bounds->Ok_0 == (s.log.partitions[p].log_start_offset, s.log.partitions[p].next_offset)
            }
            &&& assigned && topics::topic_under(s.log, topic_id) is Some && s.log.partitions.contains_key(
                PartitionKeyView { topic: topics::topic_under(s.log, topic_id)->0.name, partition },
            ) ==> bounds is Ok
            &&& !s.share_groups.contains_key(group_id) ==> bounds == Err::<(i64, i64), ControlErrorView>(ControlErrorView::GroupNotFound(group_id))
        }),
{
}

/// From where share groups read is set only while they have no member whose session lasts, and never for
/// a group of another kind; for each partition it is told whether there is such a one.
pub proof fn share_starts_are_set_for_idle_groups(
    s: StoreView,
    group_id: Seq<char>,
    list: Seq<PartitionKeyView>,
    live: Map<Seq<char>, ShareMemberView>,
    member_id: Seq<char>,
    i: int,
)
    requires
        0 <= i < list.len(),
    ensures
        ({
            let (after, answer) = share_groups::starts_altered(s, group_id, list, live, None);
            let (then, names) = share_groups::forgotten_topics(s, group_id, Seq::empty(), live, None);
            let topic = list[i].topic;
            &&& s.share_groups.contains_key(group_id) && live.contains_key(member_id) ==> answer is Err && names is Err
            &&& s.classic.groups.contains_key(group_id) || s.consumer_groups.contains_key(group_id) || s.streams_groups.contains_key(group_id)
                ==> answer is Err && after == s
            &&& answer is Ok ==> {
                let told = answer->Ok_0[i];
                &&& answer->Ok_0.len() == list.len()
                &&& after.share_groups.contains_key(group_id)
                &&& told.partition == list[i]
                &&& told.updated <==> s.log.topics.contains_key(topic) && 0 <= list[i].partition < s.log.topics[topic].partitions
                &&& told.topic_id is Some <==> s.log.topics.contains_key(topic)
                &&& told.topic_id is Some ==> told.topic_id->0 == s.log.topics[topic].id
            }
            &&& !(s.classic.groups.contains_key(group_id) || s.consumer_groups.contains_key(group_id) || s.streams_groups.contains_key(group_id))
                && (!s.share_groups.contains_key(group_id) || live.dom().finite() && live.dom().len() == 0) ==> answer is Ok
            &&& after.log == s.log && after.consumer_groups == s.consumer_groups && after.classic == s.classic
        }),
{
    if live.contains_key(member_id) {
        assert(live.dom().contains(member_id));
    }
    if live.dom().finite() && live.dom().len() == 0 {
        live.dom().lemma_len0_is_empty();
        assert(live =~= Map::<Seq<char>, ShareMemberView>::empty());
    }
}

/// What is told of where a share group reads: nothing where no start is recorded; else the recorded
/// start, but not before the start of the log, beside the end of the log.
pub proof fn share_starts_are_told(s: StoreView, p: PartitionKeyView, recorded: Option<i64>, delivered: i32)
    requires
        share_groups::start_told(s, p, recorded, delivered) is Ok,
    ensures
        ({
            let told = share_groups::start_told(s, p, recorded, delivered)->Ok_0;
            let log = s.log.partitions[p];
            &&& s.log.topics.contains_key(p.topic) && s.log.partitions.contains_key(p)
            &&& told.partition == p
            &&& told.topic_id == s.log.topics[p.topic].id
            &&& told.high_watermark == log.next_offset
            &&& recorded is None ==> told.start_offset == -1 && told.delivery_complete_count == 0
            &&& recorded is Some ==> told.start_offset >= recorded->0 && told.start_offset >= log.log_start_offset && (told.start_offset
                == recorded->0 || told.start_offset == log.log_start_offset)
            &&& told.start_offset >= 0 ==> told.delivery_complete_count == delivered
        }),
{
}

} // verus!
