//! What holds of a store as a whole: groups of different kinds, and the offsets that they store.

use crate::classic_barrier;
use crate::classic_join;
use crate::classic_join::JoinRequestView;
use crate::consumer_queries;
use crate::consumer_types::{ConsumerGroupHeartbeatView, GroupAssignmentTaskView};
use crate::error::ControlErrorView;
use crate::group_admin;
use crate::group_offsets;
use crate::log_types::{OffsetCommitView, TopicConfigView};
use crate::offset_expiry;
use crate::partition::{PartitionKey, PartitionKeyView};
use crate::producer_expiry;
use crate::sorted_map;
use crate::store;
use crate::store::{StoreView, StreamsCheckView};
use vstd::prelude::*;

verus! {

/// Whether no id names groups of two kinds.
pub open spec fn kinds_are_apart(s: StoreView) -> bool {
    &&& forall|id: Seq<char>| #[trigger] s.classic.groups.contains_key(id) ==> !s.consumer_groups.contains_key(id) && !store::is_other(s, id)
    &&& forall|id: Seq<char>| #[trigger] s.consumer_groups.contains_key(id) ==> !store::is_other(s, id)
}

/// Whoever joins a group, no id comes to name groups of two kinds.
pub proof fn kinds_stay_apart(
    s: StoreView,
    request: JoinRequestView,
    beat: ConsumerGroupHeartbeatView,
    task: GroupAssignmentTaskView,
    now: int,
    defer: bool,
    fresh: Seq<char>,
    fresh_rebalance: u128,
)
    requires
        kinds_are_apart(s),
    ensures
        kinds_are_apart(store::joined(s, request, now, fresh).0),
        kinds_are_apart(store::begun(s, request, now, fresh, fresh_rebalance).0),
        kinds_are_apart(store::consumer_heard(s, beat, now, defer, fresh).0),
        kinds_are_apart(store::assignment_completed(s, task, now).0),
{
    let first = store::joined(s, request, now, fresh).0;
    let second = store::begun(s, request, now, fresh, fresh_rebalance).0;
    let gid = request.group_id;
    let (left, left_answer) = classic_join::joined(s.classic, request, now, fresh);
    let (right, right_answer) = classic_barrier::begun(s.classic, request, now, fresh, fresh_rebalance);
    assert forall|id: Seq<char>| #[trigger] left.groups.contains_key(id) implies s.classic.groups.contains_key(id) || (id == gid
        && left_answer is Ok) by {}
    assert forall|id: Seq<char>| #[trigger] right.groups.contains_key(id) implies s.classic.groups.contains_key(id) || (id == gid
        && right_answer is Ok) by {}
    assert forall|id: Seq<char>| #[trigger] first.classic.groups.contains_key(id) implies !first.consumer_groups.contains_key(id)
        && !store::is_other(first, id) by {
        assert(s.classic.groups.contains_key(id) || left.groups.contains_key(id));
    }
    assert forall|id: Seq<char>| #[trigger] second.classic.groups.contains_key(id) implies !second.consumer_groups.contains_key(id)
        && !store::is_other(
        second,
        id,
    ) by {
        assert(s.classic.groups.contains_key(id) || right.groups.contains_key(id));
    }
    assert forall|id: Seq<char>| #[trigger] first.consumer_groups.contains_key(id) implies !store::is_other(first, id) by {
        assert(s.consumer_groups.contains_key(id));
    }
    assert forall|id: Seq<char>| #[trigger] second.consumer_groups.contains_key(id) implies !store::is_other(second, id) by {
        assert(s.consumer_groups.contains_key(id));
    }
    let third = store::consumer_heard(s, beat, now, defer, fresh).0;
    assert forall|id: Seq<char>| #[trigger] third.classic.groups.contains_key(id) implies !third.consumer_groups.contains_key(id)
        && !store::is_other(third, id) by {
        assert(s.classic.groups.contains_key(id));
    }
    assert forall|id: Seq<char>| #[trigger] third.consumer_groups.contains_key(id) implies !store::is_other(third, id) by {
        if s.consumer_groups.contains_key(id) {
        }
    }
    let fourth = store::assignment_completed(s, task, now).0;
    assert forall|id: Seq<char>| #[trigger] fourth.classic.groups.contains_key(id) implies !fourth.consumer_groups.contains_key(id)
        && !store::is_other(
        fourth,
        id,
    ) by {
        assert(s.classic.groups.contains_key(id));
    }
    assert forall|id: Seq<char>| #[trigger] fourth.consumer_groups.contains_key(id) implies !store::is_other(fourth, id) by {
        assert(s.consumer_groups.contains_key(id));
    }
}

/// In a new store no id names groups of two kinds.
pub proof fn new_stores_keep_kinds_apart(default_config: TopicConfigView)
    ensures
        kinds_are_apart(store::empty_store(default_config)),
{
}

/// Expiry spares what it must: an offset that an open transaction holds, and one whose own time has
/// not come. What stays is not changed, and nothing is added.
pub proof fn expiry_spares_what_is_held(s: StoreView, now_ms: i64, retention_ms: i64, limit: nat, key: (Seq<char>, PartitionKeyView))
    requires
        s.log.offsets.dom().finite(),
    ensures
        ({
            let after = offset_expiry::offsets_expired(s, now_ms, retention_ms, limit).0;
            let expires = s.log.offsets[key].expire_timestamp_ms;
            &&& after.log.offsets.contains_key(key) ==> s.log.offsets.contains_key(key) && after.log.offsets[key] == s.log.offsets[key]
            &&& s.log.offsets.contains_key(key) && (offset_expiry::is_pending(s.log.transactions, key) || (expires is Some && now_ms < expires->0))
                ==> after.log.offsets.contains_key(key)
            &&& after.log.transactions == s.log.transactions
            &&& after.log.partitions == s.log.partitions
        }),
{
    if retention_ms >= 0 && limit > 0 {
        let looked = offset_expiry::groups_aged(s, now_ms);
        let due = offset_expiry::expired_offsets(looked, now_ms, retention_ms).dom();
        vstd::set_lib::lemma_set_subset_finite(s.log.offsets.dom(), due);
        sorted_map::finite_sets_are_listed::<(String, PartitionKey)>(due);
        let all = sorted_map::sorted_keys::<(String, PartitionKey)>(due);
        let keys = producer_expiry::first_of(all, limit);
        if keys.to_set().contains(key) {
            let i = choose|i: int| 0 <= i < keys.len() && keys[i] == key;
            assert(all[i] == key);
            assert(all.to_set().contains(key));
            assert(due.contains(key));
        }
    }
}

/// A group deletes its own offsets and no others, and keeps those of topics that it still reads.
pub proof fn deleted_offsets_are_gone(s: StoreView, group_id: Seq<char>, partitions: Seq<PartitionKeyView>, key: (Seq<char>, PartitionKeyView))
    requires
        group_offsets::offsets_deleted(s, group_id, partitions).1 is Ok,
    ensures
        ({
            let (after, answer) = group_offsets::offsets_deleted(s, group_id, partitions);
            let asked = key.0 == group_id && partitions.contains(key.1);
            &&& asked && !answer->Ok_0.contains_key(key.1) ==> !after.log.offsets.contains_key(key)
            &&& !asked || answer->Ok_0.contains_key(key.1) ==> (after.log.offsets.contains_key(key) <==> s.log.offsets.contains_key(key))
            &&& after.log.offsets.contains_key(key) ==> after.log.offsets[key] == s.log.offsets[key]
            &&& partitions.contains(key.1) ==> (answer->Ok_0.contains_key(key.1) <==> group_offsets::still_reads(s, group_id, key.1.topic))
        }),
{
}

/// A group that has members is not deleted. Where a group is deleted its offsets go with it, and
/// those of other groups stay.
pub proof fn deleted_groups_are_gone(s: StoreView, id: Seq<char>, key: (Seq<char>, PartitionKeyView))
    requires
        kinds_are_apart(s),
        !(s.share_groups.contains_key(id) && s.streams_groups.contains_key(id)),
    ensures
        ({
            let (after, answer) = group_admin::group_deleted(s, id);
            &&& group_admin::is_active(s, id) ==> after == s && answer is Err
            &&& answer is Err ==> after == s
            &&& kinds_are_apart(after)
            &&& answer is Ok ==> {
                &&& !after.classic.groups.contains_key(id)
                &&& !after.consumer_groups.contains_key(id)
                &&& !after.streams_groups.contains_key(id)
                &&& !after.share_groups.contains_key(id)
                &&& !group_admin::has_offsets(after.log.offsets, id)
                &&& key.0 != id && s.log.offsets.contains_key(key) ==> after.log.offsets.contains_key(key)
                    && after.log.offsets[key] == s.log.offsets[key]
                &&& group_admin::group_deleted(after, id) == (after, Err::<(), ControlErrorView>(ControlErrorView::GroupNotFound(id)))
            }
        }),
{
    let (after, answer) = group_admin::group_deleted(s, id);
    assert forall|other: Seq<char>| #[trigger] after.classic.groups.contains_key(other) implies !after.consumer_groups.contains_key(other)
        && !store::is_other(after, other) by {
        assert(s.classic.groups.contains_key(other));
    }
    assert forall|other: Seq<char>| #[trigger] after.consumer_groups.contains_key(other) implies !store::is_other(after, other) by {
        assert(s.consumer_groups.contains_key(other));
    }
    if answer is Ok {
        if s.classic.groups.contains_key(id) {
        } else if s.consumer_groups.contains_key(id) {
        }
    }
}

/// A member whose generation or epoch is refused stores no offset, in a classic or a consumer group.
pub proof fn fenced_members_store_nothing(
    s: StoreView,
    group_id: Seq<char>,
    member_id: Seq<char>,
    instance: Option<Seq<char>>,
    generation_or_epoch: i32,
    api_version: i16,
    list: Seq<OffsetCommitView>,
    streams: Option<StreamsCheckView>,
    now: int,
)
    requires
        if s.consumer_groups.contains_key(group_id) {
            consumer_queries::commit_verdict(
                s.consumer_groups[group_id],
                member_id,
                generation_or_epoch,
                group_offsets::partitions_of(list),
            ) is Err
        } else {
            group_admin::member_checked(s, group_id, member_id, instance, generation_or_epoch, streams, now).1 is Err
        },
    ensures
        ({
            let (after, answer) = group_offsets::member_offsets_committed(
                s,
                group_id,
                member_id,
                instance,
                generation_or_epoch,
                api_version,
                list,
                streams,
                now,
            );
            answer is Err && after.log == s.log
        }),
{
}

} // verus!
