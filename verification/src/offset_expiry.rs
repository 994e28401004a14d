//! Forgetting the offsets of groups that have long been away.

use crate::classic_groups;
use crate::classic_groups::{same_rebalance, MemoryGroup, MemoryGroupView};
use crate::classic_join;
use crate::consumer_groups;
use crate::consumer_groups::AWAY;
use crate::consumer_types::{ConsumerGroupState, ConsumerGroupStateView, ConsumerMemberState, ConsumerMemberStateView};
use crate::error;
use crate::error::{ControlError, ControlErrorView};
use crate::group_admin;
use crate::group_admin::stores_offsets;
use crate::groups::{GroupMember, GroupMemberView};
use crate::log_types::{
    CommittedOffset, CommittedOffsetView, LogStateView, MemoryTransaction, MemoryTransactionView, TransactionStatus,
};
use crate::numbers;
use crate::numbers::{saturating_difference, saturating_sum};
use crate::partition::{PartitionKey, PartitionKeyView};
use crate::patterns;
use crate::patterns::pattern_matches_whole;
use crate::producer_expiry;
use crate::sorted_map;
use crate::sorted_map::{Duplicate, SortedMap};
use crate::store::{
    Store, StoreView, StreamsGroup, StreamsGroupView, StreamsMember, StreamsMemberView, StreamsSubtopologyView,
};
use crate::text::{lists_text, same_text};
use crate::time;
use crate::time::Timestamp;
use vstd::prelude::*;

verus! {

/// When the session of a member ends that was last heard of at `last_heartbeat`.
pub open spec fn session_end(last_heartbeat: int, timeout_ms: i32) -> int {
    numbers::clamped_i64(time::whole_millis(last_heartbeat) + timeout_ms)
}

fn find_session_end(last_heartbeat: Timestamp, timeout_ms: i32) -> (r: i64)
    ensures
        r == session_end(last_heartbeat.deep_view(), timeout_ms),
{
    saturating_sum(last_heartbeat.millis(), timeout_ms as i64)
}

/// Whether the session of a member lasts beyond `now_ms`.
pub fn member_session_active(last_heartbeat: Timestamp, timeout_ms: i32, now_ms: i64) -> (r: bool)
    ensures
        r == (session_end(last_heartbeat.deep_view(), timeout_ms) > now_ms),
{
    find_session_end(last_heartbeat, timeout_ms) > now_ms
}

/// Whether a member of a classic group counts as present: it waits for the rebalance that is under
/// way, or its session lasts.
pub open spec fn is_present(group: MemoryGroupView, member: GroupMemberView, now_ms: i64) -> bool {
    (group.rebalance_pending && member.joined_rebalance_id == group.rebalance_id) || session_end(
        member.last_heartbeat,
        member.session_timeout_ms,
    ) > now_ms
}

fn counts_as_present(rebalance_pending: bool, rebalance_id: Option<u128>, member: &GroupMember, now_ms: i64) -> (r: bool)
    ensures
        r == ((rebalance_pending && member.deep_view().joined_rebalance_id == rebalance_id) || session_end(
            member.deep_view().last_heartbeat,
            member.session_timeout_ms,
        ) > now_ms),
{
    (rebalance_pending && same_rebalance(member.joined_rebalance_id, rebalance_id)) || member_session_active(
        member.last_heartbeat,
        member.session_timeout_ms,
        now_ms,
    )
}

/// Whether some member of a classic group counts as present.
pub open spec fn some_present(group: MemoryGroupView, now_ms: i64) -> bool {
    exists|id: Seq<char>| #[trigger] group.members.contains_key(id) && is_present(group, group.members[id], now_ms)
}

fn has_present(group: &MemoryGroup, now_ms: i64) -> (r: bool)
    ensures
        r == some_present(group.deep_view(), now_ms),
{
    let ghost g = group.deep_view();
    let ghost present = |id: Seq<char>, member: GroupMemberView| is_present(g, member, now_ms);
    let pending = group.rebalance_pending;
    let rebalance: Option<u128> = group.rebalance_id;
    let test = |id: &String, member: &GroupMember| -> (b: bool)
        ensures b == present(id.deep_view(), member.deep_view())
    {
        counts_as_present(pending, rebalance, member, now_ms)
    };
    let r = group.members.any(test, Ghost(present));
    proof {
        let m = g.members;
        if r {
            let id = choose|id: Seq<char>| #[trigger] m.contains_key(id) && present(id, m[id]);
            assert(m.contains_key(id) && is_present(g, m[id], now_ms));
        } else if some_present(g, now_ms) {
            let id = choose|id: Seq<char>| #[trigger] m.contains_key(id) && is_present(g, m[id], now_ms);
            assert(present(id, m[id]));
        }
    }
    r
}

/// When the last session of some members ends.
pub open spec fn last_session_end(members: Map<Seq<char>, GroupMemberView>, ids: Seq<Seq<char>>) -> Option<int>
    decreases ids.len(),
{
    if ids.len() == 0 {
        None
    } else {
        let member = members[ids.last()];
        let end = session_end(member.last_heartbeat, member.session_timeout_ms);
        match last_session_end(members, ids.drop_last()) {
            None => Some(end),
            Some(latest) => Some(if end > latest { end } else { latest }),
        }
    }
}

fn find_last_session_end(members: &SortedMap<String, GroupMember>) -> (r: Option<i64>)
    ensures
        match r {
            Some(end) => last_session_end(members.deep_view(), classic_groups::ordered(members.deep_view().dom())) == Some(end as int),
            None => last_session_end(members.deep_view(), classic_groups::ordered(members.deep_view().dom())) is None,
        },
{
    let ghost m = members.deep_view();
    let ids = members.keys();
    let ghost all = ids.deep_view();
    let mut r: Option<i64> = None;
    let mut i: usize = 0;
    assert(all.take(0) =~= Seq::empty());
    while i < ids.len()
        invariant
            i <= ids@.len(),
            m == members.deep_view(),
            all == ids.deep_view(),
            all.to_set() == m.dom(),
            match r {
                Some(end) => last_session_end(m, all.take(i as int)) == Some(end as int),
                None => last_session_end(m, all.take(i as int)) is None,
            },
        decreases ids@.len() - i,
    {
        proof {
            assert(all[i as int] == ids@[i as int].deep_view());
            assert(all.to_set().contains(all[i as int]));
            sorted_map::prefix_grows(all, i as int);
        }
        let member = members.get(&ids[i]).unwrap();
        let end: i64 = find_session_end(member.last_heartbeat, member.session_timeout_ms);
        r = match r {
            None => Some(end),
            Some(latest) => Some(if end > latest { end } else { latest }),
        };
        i = i + 1;
    }
    assert(all.take(i as int) =~= all);
    r
}

/// Since when a classic group without anyone present is empty.
pub open spec fn empty_from(group: MemoryGroupView, now_ms: i64) -> Option<int> {
    let end = match last_session_end(group.members, classic_groups::ordered(group.members.dom())) {
        Some(end) => if end < now_ms {
            end
        } else {
            now_ms as int
        },
        None => now_ms as int,
    };
    if time::FIRST_MILLI <= end <= time::LAST_MILLI {
        Some(end * 1_000_000)
    } else {
        None
    }
}

/// A classic group with a note since when it is empty.
pub open spec fn aged(group: MemoryGroupView, now_ms: i64) -> MemoryGroupView {
    MemoryGroupView {
        empty_since: if some_present(group, now_ms) {
            None
        } else if group.empty_since is Some {
            group.empty_since
        } else {
            empty_from(group, now_ms)
        },
        ..group
    }
}

/// Notes since when a classic group is empty.
pub fn age(group: &MemoryGroup, now_ms: i64) -> (r: MemoryGroup)
    ensures
        r.deep_view() == aged(group.deep_view(), now_ms),
{
    let mut r = group.duplicate();
    if has_present(group, now_ms) {
        r.empty_since = None;
    } else if r.empty_since.is_none() {
        let end: i64 = match find_last_session_end(&group.members) {
            Some(end) => if end < now_ms {
                end
            } else {
                now_ms
            },
            None => now_ms,
        };
        r.empty_since = Timestamp::from_millis(end);
    }
    r
}

/// Whether a consumer names a topic, or its pattern matches the topic's name as a whole.
pub open spec fn subscribes(member: ConsumerMemberStateView, topic: Seq<char>) -> bool {
    member.subscribed_topic_names.contains(topic) || (member.subscribed_topic_regex is Some && patterns::matches_whole(
        member.subscribed_topic_regex->0,
        topic,
    ))
}

fn consumer_member_subscribes(member: &ConsumerMemberState, topic: &str) -> (r: bool)
    ensures
        r == subscribes(member.deep_view(), topic@),
{
    lists_text(&member.subscribed_topic_names, topic) || match &member.subscribed_topic_regex {
        Some(pattern) => pattern_matches_whole(pattern.as_str(), topic),
        None => false,
    }
}

/// Whether some pattern of a list matches a text as a whole.
pub open spec fn some_matches(patterns: Seq<Seq<char>>, text: Seq<char>) -> bool {
    exists|i: int| 0 <= i < patterns.len() && patterns::matches_whole(#[trigger] patterns[i], text)
}

fn any_matches(patterns: &Vec<String>, text: &str) -> (r: bool)
    ensures
        r == some_matches(patterns.deep_view(), text@),
{
    let ghost all = patterns.deep_view();
    let mut i: usize = 0;
    while i < patterns.len()
        invariant
            i <= patterns@.len(),
            all == patterns.deep_view(),
            forall|j: int| 0 <= j < i ==> !patterns::matches_whole(#[trigger] all[j], text@),
        decreases patterns@.len() - i,
    {
        assert(all[i as int] == patterns@[i as int]@);
        if pattern_matches_whole(patterns[i].as_str(), text) {
            return true;
        }
        i = i + 1;
    }
    false
}

/// Whether a part of a streams application reads a topic.
pub open spec fn part_reads(part: StreamsSubtopologyView, topic: Seq<char>) -> bool {
    part.source_topics.contains(topic) || part.repartition_source_topics.contains(topic) || some_matches(part.source_topic_regex, topic)
}

/// Whether a streams application reads a topic.
pub open spec fn streams_read(group: StreamsGroupView, topic: Seq<char>) -> bool {
    exists|i: int| 0 <= i < group.subtopologies.len() && part_reads(#[trigger] group.subtopologies[i], topic)
}

fn streams_group_subscribes(group: &StreamsGroup, topic: &str) -> (r: bool)
    ensures
        r == streams_read(group.deep_view(), topic@),
{
    let ghost all = group.subtopologies.deep_view();
    let mut i: usize = 0;
    while i < group.subtopologies.len()
        invariant
            i <= group.subtopologies@.len(),
            all == group.subtopologies.deep_view(),
            forall|j: int| 0 <= j < i ==> !part_reads(#[trigger] all[j], topic@),
        decreases group.subtopologies@.len() - i,
    {
        let part = &group.subtopologies[i];
        assert(all[i as int] == part.deep_view());
        if lists_text(&part.source_topics, topic) || lists_text(&part.repartition_source_topics, topic) || any_matches(
            &part.source_topic_regex,
            topic,
        ) {
            assert(part_reads(group.deep_view().subtopologies[i as int], topic@));
            return true;
        }
        i = i + 1;
    }
    false
}

/// Whether some member of a streams group is present.
pub open spec fn streams_present(group: StreamsGroupView, now_ms: i64) -> bool {
    exists|id: Seq<char>| #[trigger] group.members.contains_key(id) && session_end(
        group.members[id].last_heartbeat,
        group.members[id].session_timeout_ms,
    ) > now_ms
}

fn streams_group_present(group: &StreamsGroup, now_ms: i64) -> (r: bool)
    ensures
        r == streams_present(group.deep_view(), now_ms),
{
    let ghost present = |id: Seq<char>, member: StreamsMemberView| session_end(member.last_heartbeat, member.session_timeout_ms) > now_ms;
    let test = |id: &String, member: &StreamsMember| -> (b: bool)
        ensures b == present(id.deep_view(), member.deep_view())
    {
        member_session_active(member.last_heartbeat, member.session_timeout_ms, now_ms)
    };
    let r = group.members.any(test, Ghost(present));
    proof {
        let m = group.deep_view().members;
        if r {
            let id = choose|id: Seq<char>| #[trigger] m.contains_key(id) && present(id, m[id]);
            assert(m.contains_key(id) && session_end(m[id].last_heartbeat, m[id].session_timeout_ms) > now_ms);
        } else if streams_present(group.deep_view(), now_ms) {
            let id = choose|id: Seq<char>| #[trigger] m.contains_key(id) && session_end(m[id].last_heartbeat, m[id].session_timeout_ms) > now_ms;
            assert(present(id, m[id]));
        }
    }
    r
}

/// Whether everyone present in a classic group has an assignment.
pub open spec fn all_assigned(group: MemoryGroupView, now_ms: i64) -> bool {
    forall|id: Seq<char>| #[trigger] group.members.contains_key(id) && is_present(group, group.members[id], now_ms)
        ==> group.assignments.contains_key(
        group.members[id].member_id,
    )
}

/// Whether someone present in a classic group subscribes to a topic.
pub open spec fn present_subscribe(group: MemoryGroupView, topic: Seq<char>, now_ms: i64) -> bool {
    exists|id: Seq<char>| #[trigger] group.members.contains_key(id) && is_present(group, group.members[id], now_ms)
        && group.members[id].subscribed_topics.contains(
        topic,
    )
}

/// Whether a consumer group still reads a topic: a member that is away for a while counts.
pub open spec fn consumers_read(group: ConsumerGroupStateView, topic: Seq<char>, now_ms: i64) -> bool {
    exists|id: Seq<char>| #[trigger] group.members.contains_key(id) && (group.members[id].member_epoch == AWAY || session_end(
        group.members[id].last_heartbeat,
        group.members[id].session_timeout_ms,
    ) > now_ms) && subscribes(group.members[id], topic)
}

/// Whether an offset of a classic group may be forgotten: the group has been empty for long enough,
/// or is settled and no longer reads the topic.
pub open spec fn classic_forgets(group: MemoryGroupView, topic: Seq<char>, long_enough: bool, now_ms: i64, retention_ms: i64) -> bool {
    if !some_present(group, now_ms) {
        group.empty_since is Some && numbers::clamped_i64(now_ms - time::whole_millis(group.empty_since->0)) >= retention_ms
    } else {
        !group.rebalance_pending && all_assigned(group, now_ms) && group.protocol_type == "consumer"@ && long_enough && !present_subscribe(
            group,
            topic,
            now_ms,
        )
    }
}

/// Whether an offset without an expiry of its own may be forgotten.
pub open spec fn default_expired(
    s: StoreView,
    group_id: Seq<char>,
    topic: Seq<char>,
    commit_timestamp_ms: i64,
    now_ms: i64,
    retention_ms: i64,
) -> bool {
    let long_enough = numbers::clamped_i64(now_ms - commit_timestamp_ms) >= retention_ms;
    if s.classic.groups.contains_key(group_id) {
        classic_forgets(s.classic.groups[group_id], topic, long_enough, now_ms, retention_ms)
    } else if s.consumer_groups.contains_key(group_id) {
        long_enough && !consumers_read(s.consumer_groups[group_id], topic, now_ms)
    } else if s.streams_groups.contains_key(group_id) {
        let group = s.streams_groups[group_id];
        long_enough && !(streams_present(group, now_ms) && streams_read(group, topic))
    } else {
        long_enough
    }
}

fn classic_may_forget(group: &MemoryGroup, topic: &str, long_enough: bool, now_ms: i64, retention_ms: i64) -> (r: bool)
    ensures
        r == classic_forgets(group.deep_view(), topic@, long_enough, now_ms, retention_ms),
{
    let ghost g = group.deep_view();
    let ghost t = topic@;
    if !has_present(group, now_ms) {
        return match group.empty_since {
            Some(since) => saturating_difference(now_ms, since.millis()) >= retention_ms,
            None => false,
        };
    }
    let pending = group.rebalance_pending;
    let rebalance: Option<u128> = group.rebalance_id;
    let assignments = &group.assignments;
    let ghost unassigned = |id: Seq<char>, member: GroupMemberView| is_present(g, member, now_ms) && !g.assignments.contains_key(member.member_id);
    let lacks = |id: &String, member: &GroupMember| -> (b: bool)
        ensures b == unassigned(id.deep_view(), member.deep_view())
    {
        counts_as_present(pending, rebalance, member, now_ms) && !assignments.contains_key(&member.member_id)
    };
    let some_lack = group.members.any(lacks, Ghost(unassigned));
    let ghost reading = |id: Seq<char>, member: GroupMemberView| is_present(g, member, now_ms) && member.subscribed_topics.contains(t);
    let reads = |id: &String, member: &GroupMember| -> (b: bool)
        ensures b == reading(id.deep_view(), member.deep_view())
    {
        counts_as_present(pending, rebalance, member, now_ms) && lists_text(&member.subscribed_topics, topic)
    };
    let some_read = group.members.any(reads, Ghost(reading));
    proof {
        let m = g.members;
        if some_lack {
            let id = choose|id: Seq<char>| #[trigger] m.contains_key(id) && unassigned(id, m[id]);
            assert(m.contains_key(id) && is_present(g, m[id], now_ms));
        } else {
            assert forall|id: Seq<char>| #[trigger] m.contains_key(id) && is_present(g, m[id], now_ms)
                implies g.assignments.contains_key(m[id].member_id) by {
                assert(!unassigned(id, m[id]));
            }
        }
        if some_read {
            let id = choose|id: Seq<char>| #[trigger] m.contains_key(id) && reading(id, m[id]);
            assert(m.contains_key(id) && is_present(g, m[id], now_ms) && m[id].subscribed_topics.contains(t));
        } else if present_subscribe(g, t, now_ms) {
            let id = choose|id: Seq<char>| #[trigger] m.contains_key(id) && is_present(g, m[id], now_ms) && m[id].subscribed_topics.contains(t);
            assert(reading(id, m[id]));
        }
    }
    !pending && !some_lack && same_text(group.protocol_type.as_str(), "consumer") && long_enough && !some_read
}

fn consumers_still_read(group: &ConsumerGroupState, topic: &str, now_ms: i64) -> (r: bool)
    ensures
        r == consumers_read(group.deep_view(), topic@, now_ms),
{
    let ghost t = topic@;
    let ghost reading = |id: Seq<char>, member: ConsumerMemberStateView|
        (member.member_epoch == AWAY || session_end(member.last_heartbeat, member.session_timeout_ms) > now_ms) && subscribes(member, t);
    let test = |id: &String, member: &ConsumerMemberState| -> (b: bool)
        ensures b == reading(id.deep_view(), member.deep_view())
    {
        (member.member_epoch == AWAY || member_session_active(member.last_heartbeat, member.session_timeout_ms, now_ms))
            && consumer_member_subscribes(member, topic)
    };
    let r = group.members.any(test, Ghost(reading));
    proof {
        let m = group.deep_view().members;
        if r {
            let id = choose|id: Seq<char>| #[trigger] m.contains_key(id) && reading(id, m[id]);
            assert(m.contains_key(id) && subscribes(m[id], t));
        } else if consumers_read(group.deep_view(), t, now_ms) {
            let id = choose|id: Seq<char>| #[trigger] m.contains_key(id) && (m[id].member_epoch == AWAY
                || session_end(m[id].last_heartbeat, m[id].session_timeout_ms) > now_ms) && subscribes(m[id], t);
            assert(reading(id, m[id]));
        }
    }
    r
}

/// Whether an open transaction holds an offset of a group for a partition.
pub open spec fn is_pending(transactions: Map<u128, MemoryTransactionView>, key: (Seq<char>, PartitionKeyView)) -> bool {
    exists|id: u128| #[trigger] transactions.contains_key(id) && transactions[id].status == TransactionStatus::Ongoing
        && transactions[id].offsets.contains_key(key)
}

fn memory_offset_has_pending_transaction(transactions: &SortedMap<u128, MemoryTransaction>, key: &(String, PartitionKey)) -> (r: bool)
    ensures
        r == is_pending(transactions.deep_view(), key.deep_view()),
{
    let ghost k = key.deep_view();
    let ghost holds = |id: u128, transaction: MemoryTransactionView|
        transaction.status == TransactionStatus::Ongoing && transaction.offsets.contains_key(k);
    let test = |id: &u128, transaction: &MemoryTransaction| -> (b: bool)
        ensures b == holds(id.deep_view(), transaction.deep_view())
    {
        transaction.status == TransactionStatus::Ongoing && transaction.offsets.contains_key(key)
    };
    let r = transactions.any(test, Ghost(holds));
    proof {
        let m = transactions.deep_view();
        if r {
            let id = choose|id: u128| #[trigger] m.contains_key(id) && holds(id, m[id]);
            assert(m.contains_key(id) && m[id].offsets.contains_key(k));
        } else if is_pending(m, k) {
            let id = choose|id: u128| #[trigger] m.contains_key(id) && m[id].status == TransactionStatus::Ongoing && m[id].offsets.contains_key(k);
            assert(holds(id, m[id]));
        }
    }
    r
}

/// Whether an open transaction holds an offset of a group.
pub open spec fn group_pending(transactions: Map<u128, MemoryTransactionView>, group_id: Seq<char>) -> bool {
    exists|id: u128| #[trigger] transactions.contains_key(id) && transactions[id].status == TransactionStatus::Ongoing && group_admin::has_offsets(
        transactions[id].offsets,
        group_id,
    )
}

fn group_has_pending(transactions: &SortedMap<u128, MemoryTransaction>, group_id: &str) -> (r: bool)
    ensures
        r == group_pending(transactions.deep_view(), group_id@),
{
    let ghost g = group_id@;
    let ghost holds = |id: u128, transaction: MemoryTransactionView|
        transaction.status == TransactionStatus::Ongoing && group_admin::has_offsets(transaction.offsets, g);
    let test = |id: &u128, transaction: &MemoryTransaction| -> (b: bool)
        ensures b == holds(id.deep_view(), transaction.deep_view())
    {
        transaction.status == TransactionStatus::Ongoing && stores_offsets(&transaction.offsets, group_id)
    };
    let r = transactions.any(test, Ghost(holds));
    proof {
        let m = transactions.deep_view();
        if r {
            let id = choose|id: u128| #[trigger] m.contains_key(id) && holds(id, m[id]);
            assert(m.contains_key(id) && group_admin::has_offsets(m[id].offsets, g));
        } else if group_pending(m, g) {
            let id = choose|id: u128| #[trigger] m.contains_key(id) && m[id].status == TransactionStatus::Ongoing
                && group_admin::has_offsets(m[id].offsets, g);
            assert(holds(id, m[id]));
        }
    }
    r
}

/// Whether an offset is to be forgotten.
pub open spec fn is_expired(s: StoreView, key: (Seq<char>, PartitionKeyView), offset: CommittedOffsetView, now_ms: i64, retention_ms: i64) -> bool {
    &&& match offset.expire_timestamp_ms {
        Some(at) => now_ms >= at,
        None => default_expired(s, key.0, key.1.topic, offset.commit_timestamp_ms, now_ms, retention_ms),
    }
    &&& !is_pending(s.log.transactions, key)
}

/// The offsets that are to be forgotten.
pub open spec fn expired_offsets(s: StoreView, now_ms: i64, retention_ms: i64) -> Map<(Seq<char>, PartitionKeyView), CommittedOffsetView> {
    sorted_map::filtered(
        s.log.offsets,
        |key: (Seq<char>, PartitionKeyView), offset: CommittedOffsetView| is_expired(s, key, offset, now_ms, retention_ms),
    )
}

/// Whether some key of a list belongs to a group.
pub open spec fn is_affected(keys: Seq<(Seq<char>, PartitionKeyView)>, group_id: Seq<char>) -> bool {
    exists|i: int| 0 <= i < keys.len() && (#[trigger] keys[i]).0 == group_id
}

/// Whether a group that has lost offsets of a list has none left, stored or pending.
pub open spec fn is_bare(s: StoreView, keys: Seq<(Seq<char>, PartitionKeyView)>, group_id: Seq<char>) -> bool {
    is_affected(keys, group_id) && !group_admin::has_offsets(s.log.offsets, group_id) && !group_pending(s.log.transactions, group_id)
}

/// The state without groups that have lost their last offsets and have no members.
pub open spec fn bare_groups_gone(s: StoreView, keys: Seq<(Seq<char>, PartitionKeyView)>) -> StoreView {
    StoreView {
        classic: classic_join::ClassicGroupsView {
            groups: sorted_map::filtered(
                s.classic.groups,
                |id: Seq<char>, group: MemoryGroupView| !(is_bare(s, keys, id) && group.empty_since is Some),
            ),
            ..s.classic
        },
        consumer_groups: sorted_map::filtered(
            s.consumer_groups,
            |id: Seq<char>, group: ConsumerGroupStateView|
                !(is_bare(s, keys, id) && group.members == Map::<Seq<char>, ConsumerMemberStateView>::empty()),
        ),
        streams_groups: sorted_map::filtered(
            s.streams_groups,
            |id: Seq<char>, group: StreamsGroupView|
                !(is_bare(s, keys, id) && group.members == Map::<Seq<char>, StreamsMemberView>::empty()),
        ),
        ..s
    }
}

/// The state after classic groups have been looked through for empty ones.
pub open spec fn groups_aged(s: StoreView, now_ms: i64) -> StoreView {
    StoreView {
        classic: classic_join::ClassicGroupsView {
            groups: s.classic.groups.map_values(|group: MemoryGroupView| aged(group, now_ms)),
            ..s.classic
        },
        ..s
    }
}

/// The state without the offsets of a list.
pub open spec fn without_offsets(s: StoreView, keys: Seq<(Seq<char>, PartitionKeyView)>) -> StoreView {
    StoreView { log: LogStateView { offsets: s.log.offsets.remove_keys(keys.to_set()), ..s.log }, ..s }
}

/// The state after at most `limit` offsets have been forgotten, and how many have.
pub open spec fn offsets_expired(s: StoreView, now_ms: i64, retention_ms: i64, limit: nat) -> (StoreView, Result<u64, ControlErrorView>) {
    if retention_ms < 0 {
        (s, Err(ControlErrorView::InvalidRequest("consumer offset retention must be non-negative"@)))
    } else if limit == 0 {
        (s, Ok(0u64))
    } else {
        let looked = groups_aged(s, now_ms);
        let keys = producer_expiry::first_of(
            sorted_map::sorted_keys::<(String, PartitionKey)>(expired_offsets(looked, now_ms, retention_ms).dom()),
            limit,
        );
        (bare_groups_gone(without_offsets(looked, keys), keys), Ok(keys.len() as u64))
    }
}

impl Store {
    /// Decides whether an offset without an expiry of its own may be forgotten.
    pub fn offset_default_expired(&self, key: &(String, PartitionKey), commit_timestamp_ms: i64, now_ms: i64, retention_ms: i64) -> (r: bool)
        ensures
            r == default_expired(
                self.deep_view(),
                key.0@,
                key.1.topic@,
                commit_timestamp_ms,
                now_ms,
                retention_ms,
            ),
    {
        let long_enough = saturating_difference(now_ms, commit_timestamp_ms) >= retention_ms;
        let topic = key.1.topic.as_str();
        if let Some(group) = self.classic.groups.get(&key.0) {
            return classic_may_forget(group, topic, long_enough, now_ms, retention_ms);
        }
        if let Some(group) = self.consumer_groups.get(&key.0) {
            return long_enough && !consumers_still_read(group, topic, now_ms);
        }
        if let Some(group) = self.streams_groups.get(&key.0) {
            return long_enough && !(streams_group_present(group, now_ms) && streams_group_subscribes(group, topic));
        }
        long_enough
    }

    fn offset_expired(&self, key: &(String, PartitionKey), offset: &CommittedOffset, now_ms: i64, retention_ms: i64) -> (r: bool)
        ensures
            r == is_expired(self.deep_view(), key.deep_view(), offset.deep_view(), now_ms, retention_ms),
    {
        let over = match offset.expire_timestamp_ms {
            Some(at) => now_ms >= at,
            None => self.offset_default_expired(key, offset.commit_timestamp_ms, now_ms, retention_ms),
        };
        over && !memory_offset_has_pending_transaction(&self.log.transactions, key)
    }

    /// The ids of groups that have lost offsets of a list and have none left.
    fn list_bare(&self, keys: &Vec<(String, PartitionKey)>) -> (r: SortedMap<String, ()>)
        ensures
            forall|id: Seq<char>| #[trigger] r.deep_view().contains_key(id) <==> is_bare(self.deep_view(), keys.deep_view(), id),
    {
        let ghost s = self.deep_view();
        let ghost all = keys.deep_view();
        let mut r: SortedMap<String, ()> = SortedMap::new();
        let mut i: usize = 0;
        while i < keys.len()
            invariant
                i <= keys@.len(),
                s == self.deep_view(),
                all == keys.deep_view(),
                forall|id: Seq<char>| #[trigger] r.deep_view().contains_key(id) <==> is_bare(s, all.take(i as int), id),
            decreases keys@.len() - i,
        {
            let ghost last = all[i as int].0;
            let ghost then = all.take(i as int);
            let ghost now = all.take(i + 1);
            let ghost before = r.deep_view();
            proof {
                assert(all[i as int] == keys@[i as int].deep_view());
                assert forall|id: Seq<char>| is_affected(now, id) <==> is_affected(then, id) || id == last by {
                    if is_affected(then, id) {
                        let j = choose|j: int| 0 <= j < then.len() && (#[trigger] then[j]).0 == id;
                        assert(now[j].0 == id);
                    }
                    assert(now[i as int].0 == last);
                    if is_affected(now, id) && id != last {
                        let j = choose|j: int| 0 <= j < now.len() && (#[trigger] now[j]).0 == id;
                        assert(then[j].0 == id);
                    }
                }
            }
            let bare = !stores_offsets(&self.log.offsets, keys[i].0.as_str()) && !group_has_pending(
                &self.log.transactions,
                keys[i].0.as_str(),
            );
            if bare {
                r.insert(keys[i].0.clone(), ());
            }
            assert forall|id: Seq<char>| #[trigger] r.deep_view().contains_key(id) <==> is_bare(s, now, id) by {
                assert(before.contains_key(id) <==> is_bare(s, then, id));
            }
            i = i + 1;
        }
        assert(all.take(i as int) =~= all);
        r
    }

    /// Forgets groups that have lost their last offsets and have no members.
    fn drop_bare_groups(&mut self, keys: &Vec<(String, PartitionKey)>)
        ensures
            final(self).deep_view() == bare_groups_gone(old(self).deep_view(), keys.deep_view()),
    {
        let ghost s = self.deep_view();
        let ghost all = keys.deep_view();
        let bare = self.list_bare(keys);
        let ghost keep_classic = |id: Seq<char>, group: MemoryGroupView| !(is_bare(s, all, id) && group.empty_since is Some);
        let classic = |id: &String, group: &MemoryGroup| -> (b: bool)
            ensures b == keep_classic(id.deep_view(), group.deep_view())
        {
            !(bare.contains_key(id) && group.empty_since.is_some())
        };
        self.classic.groups.retain(classic, Ghost(keep_classic));
        let ghost keep_consumers = |id: Seq<char>, group: ConsumerGroupStateView|
            !(is_bare(s, all, id) && group.members == Map::<Seq<char>, ConsumerMemberStateView>::empty());
        let consumers = |id: &String, group: &ConsumerGroupState| -> (b: bool)
            ensures b == keep_consumers(id.deep_view(), group.deep_view())
        {
            !(bare.contains_key(id) && group.members.is_empty())
        };
        self.consumer_groups.retain(consumers, Ghost(keep_consumers));
        let ghost keep_streams = |id: Seq<char>, group: StreamsGroupView|
            !(is_bare(s, all, id) && group.members == Map::<Seq<char>, StreamsMemberView>::empty());
        let streams = |id: &String, group: &StreamsGroup| -> (b: bool)
            ensures b == keep_streams(id.deep_view(), group.deep_view())
        {
            !(bare.contains_key(id) && group.members.is_empty())
        };
        self.streams_groups.retain(streams, Ghost(keep_streams));
        proof {
            let want = bare_groups_gone(s, all);
            assert(self.classic.groups.deep_view() =~= want.classic.groups);
            assert(self.consumer_groups.deep_view() =~= want.consumer_groups);
            assert(self.streams_groups.deep_view() =~= want.streams_groups);
        }
    }

    /// Forgets offsets of groups that no longer need them, and counts them.
    pub fn expire_consumer_offsets(&mut self, now_ms: i64, retention_ms: i64, limit: usize) -> (r: Result<u64, ControlError>)
        ensures
            (final(self).deep_view(), error::outcome(r)) == offsets_expired(old(self).deep_view(), now_ms, retention_ms, limit as nat),
    {
        let ghost s = self.deep_view();
        if retention_ms < 0 {
            return Err(ControlError::InvalidRequest("consumer offset retention must be non-negative".to_owned()));
        }
        if limit == 0 {
            return Ok(0);
        }
        let ghost older = |group: MemoryGroupView| aged(group, now_ms);
        let grow_old = |group: &MemoryGroup| -> (after: MemoryGroup)
            ensures after.deep_view() == older(group.deep_view())
        {
            age(group, now_ms)
        };
        self.classic.groups.update_values(grow_old, Ghost(older));
        let ghost looked = groups_aged(s, now_ms);
        assert(self.classic.groups.deep_view() =~= looked.classic.groups);
        let ghost over = |key: (Seq<char>, PartitionKeyView), offset: CommittedOffsetView| is_expired(looked, key, offset, now_ms, retention_ms);
        let test = |key: &(String, PartitionKey), offset: &CommittedOffset| -> (b: bool)
            ensures b == over(key.deep_view(), offset.deep_view())
        {
            self.offset_expired(key, offset, now_ms, retention_ms)
        };
        let found = self.log.offsets.keys_where(test, Ghost(over));
        let ghost all = found.deep_view();
        assert(sorted_map::filtered(looked.log.offsets, over) == expired_offsets(looked, now_ms, retention_ms));
        let mut keys: Vec<(String, PartitionKey)> = Vec::new();
        assert(keys.deep_view() =~= all.take(0));
        let mut n: usize = 0;
        assert(looked.log.offsets.remove_keys(all.take(0).to_set()) =~= looked.log.offsets);
        while n < found.len() && n < limit
            invariant
                n <= found@.len(),
                n <= limit,
                all == found.deep_view(),
                keys.deep_view() == all.take(n as int),
                self.deep_view() == without_offsets(looked, all.take(n as int)),
            decreases found@.len() - n,
        {
            proof {
                assert(all[n as int] == found@[n as int].deep_view());
                sorted_map::prefix_grows(all, n as int);
            }
            let ghost before = keys.deep_view();
            self.log.offsets.remove(&found[n]);
            keys.push(found[n].duplicate());
            assert(keys.deep_view() =~= before.push(all[n as int]));
            assert(all.take(n + 1) =~= before.push(all[n as int]));
            assert(self.log.offsets.deep_view() =~= looked.log.offsets.remove_keys(all.take(n + 1).to_set()));
            n = n + 1;
        }
        assert(all.len() == found@.len());
        self.drop_bare_groups(&keys);
        Ok(n as u64)
    }
}

} // verus!
