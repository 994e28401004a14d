//! Which offsets outlive an expiry pass, and which do not.

use crate::classic_groups;
use crate::consumer_groups::AWAY;
use crate::group_admin;
use crate::groups::GroupMemberView;
use crate::log_types::{MemoryTransactionView, TransactionStatus};
use crate::numbers;
use crate::offset_expiry;
use crate::partition::{PartitionKey, PartitionKeyView};
use crate::patterns;
use crate::producer_expiry;
use crate::sorted_map;
use crate::store::StoreView;
use crate::time;
use vstd::prelude::*;

verus! {

/// Milliseconds are counted from the epoch, and rounded down.
pub proof fn millis_are_rounded_down(t: int)
    requires
        i64::MIN <= t / 1_000_000 <= i64::MAX,
    ensures
        time::whole_millis(t) * 1_000_000 <= t < (time::whole_millis(t) + 1) * 1_000_000,
{
    vstd::arithmetic::div_mod::lemma_fundamental_div_mod(t, 1_000_000);
}

/// Whether somebody last heard of at an instant, with some session timeout, still counts at `now_ms`.
pub open spec fn lasts(last_heartbeat: int, session_timeout_ms: i32, now_ms: i64) -> bool {
    numbers::clamped_i64(time::whole_millis(last_heartbeat) + session_timeout_ms) > now_ms
}

/// Whether `retention_ms` have gone by from one time to another.
pub open spec fn has_gone_by(from_ms: i64, now_ms: i64, retention_ms: i64) -> bool {
    numbers::clamped_i64(now_ms - from_ms) >= retention_ms
}

/// Whether an open transaction holds an offset.
pub open spec fn is_held(transactions: Map<u128, MemoryTransactionView>, key: (Seq<char>, PartitionKeyView)) -> bool {
    exists|id: u128| #[trigger]
        transactions.contains_key(id) && transactions[id].status == TransactionStatus::Ongoing && transactions[id].offsets.contains_key(key)
}

proof fn what_has_expired_goes(s: StoreView, now_ms: i64, retention_ms: i64, limit: nat, key: (Seq<char>, PartitionKeyView))
    requires
        s.log.offsets.dom().finite(),
        s.log.offsets.contains_key(key),
        retention_ms >= 0,
        limit > 0,
    ensures
        ({
            let (after, answer) = offset_expiry::offsets_expired(s, now_ms, retention_ms, limit);
            let looked = offset_expiry::groups_aged(s, now_ms);
            let expired = offset_expiry::is_expired(looked, key, s.log.offsets[key], now_ms, retention_ms);
            &&& answer is Ok
            &&& !expired ==> after.log.offsets.contains_key(key) && after.log.offsets[key] == s.log.offsets[key]
            &&& expired && answer->Ok_0 < limit && s.log.offsets.dom().len() <= u64::MAX ==> !after.log.offsets.contains_key(key)
        }),
{
    let looked = offset_expiry::groups_aged(s, now_ms);
    let due = offset_expiry::expired_offsets(looked, now_ms, retention_ms).dom();
    vstd::set_lib::lemma_set_subset_finite(s.log.offsets.dom(), due);
    vstd::set_lib::lemma_len_subset(due, s.log.offsets.dom());
    sorted_map::finite_sets_are_listed::<(String, PartitionKey)>(due);
    let all = sorted_map::sorted_keys::<(String, PartitionKey)>(due);
    sorted_map::strictly_sorted_unique::<(String, PartitionKey)>(all);
    let keys = producer_expiry::first_of(all, limit);
    if keys.to_set().contains(key) {
        let i = choose|i: int| 0 <= i < keys.len() && keys[i] == key;
        assert(all[i] == key);
        assert(all.to_set().contains(key));
        assert(due.contains(key));
    }
    if due.contains(key) && keys.len() < limit {
        assert(keys =~= all);
        assert(all.to_set().contains(key));
    }
}

/// An offset without an expiry of its own outlives an expiry pass for as long as a member of its
/// consumer group subscribes to its topic, by name or by pattern, whose session lasts or which is only
/// away for a while.
pub proof fn offsets_of_reading_consumers_stay(
    s: StoreView,
    now_ms: i64,
    retention_ms: i64,
    limit: nat,
    key: (Seq<char>, PartitionKeyView),
    member_id: Seq<char>,
)
    requires
        s.log.offsets.dom().finite(),
        s.log.offsets.contains_key(key),
        s.log.offsets[key].expire_timestamp_ms is None,
        !s.classic.groups.contains_key(key.0),
        s.consumer_groups.contains_key(key.0),
        s.consumer_groups[key.0].members.contains_key(member_id),
        ({
            let member = s.consumer_groups[key.0].members[member_id];
            &&& member.member_epoch == -2 || lasts(member.last_heartbeat, member.session_timeout_ms, now_ms)
            &&& member.subscribed_topic_names.contains(key.1.topic) || (member.subscribed_topic_regex is Some && patterns::matches_whole(
                member.subscribed_topic_regex->0,
                key.1.topic,
            ))
        }),
    ensures
        ({
            let after = offset_expiry::offsets_expired(s, now_ms, retention_ms, limit).0;
            after.log.offsets.contains_key(key) && after.log.offsets[key] == s.log.offsets[key]
        }),
{
    if retention_ms >= 0 && limit > 0 {
        what_has_expired_goes(s, now_ms, retention_ms, limit, key);
        let looked = offset_expiry::groups_aged(s, now_ms);
        let group = looked.consumer_groups[key.0];
        assert(group.members.contains_key(member_id) && offset_expiry::subscribes(group.members[member_id], key.1.topic));
        assert(offset_expiry::consumers_read(group, key.1.topic, now_ms));
    }
}

/// An offset without an expiry of its own outlives an expiry pass while a member of its classic group
/// whose session lasts subscribes to its topic, and while the group is between two generations.
pub proof fn offsets_of_reading_members_stay(
    s: StoreView,
    now_ms: i64,
    retention_ms: i64,
    limit: nat,
    key: (Seq<char>, PartitionKeyView),
    member_id: Seq<char>,
)
    requires
        s.log.offsets.dom().finite(),
        s.log.offsets.contains_key(key),
        s.log.offsets[key].expire_timestamp_ms is None,
        s.classic.groups.contains_key(key.0),
        s.classic.groups[key.0].members.contains_key(member_id),
        ({
            let group = s.classic.groups[key.0];
            let member = group.members[member_id];
            &&& lasts(member.last_heartbeat, member.session_timeout_ms, now_ms)
            &&& member.subscribed_topics.contains(key.1.topic) || group.rebalance_pending || !group.assignments.contains_key(member.member_id)
                || group.protocol_type != "consumer"@ || !has_gone_by(s.log.offsets[key].commit_timestamp_ms, now_ms, retention_ms)
        }),
    ensures
        ({
            let after = offset_expiry::offsets_expired(s, now_ms, retention_ms, limit).0;
            after.log.offsets.contains_key(key) && after.log.offsets[key] == s.log.offsets[key]
        }),
{
    if retention_ms >= 0 && limit > 0 {
        what_has_expired_goes(s, now_ms, retention_ms, limit, key);
        let looked = offset_expiry::groups_aged(s, now_ms);
        let group = looked.classic.groups[key.0];
        let old = s.classic.groups[key.0];
        assert(group.members.contains_key(member_id) && offset_expiry::is_present(group, group.members[member_id], now_ms));
        assert(offset_expiry::some_present(group, now_ms));
        if old.members[member_id].subscribed_topics.contains(key.1.topic) {
            assert(offset_expiry::present_subscribe(group, key.1.topic, now_ms));
        }
        if !old.assignments.contains_key(old.members[member_id].member_id) {
            assert(!offset_expiry::all_assigned(group, now_ms));
        }
    }
}

/// An offset without an expiry of its own stays until `retention_ms` have gone by since it was
/// committed, unless its group is a classic one, whose offsets stay until it has been empty for as long.
pub proof fn young_offsets_stay(s: StoreView, now_ms: i64, retention_ms: i64, limit: nat, key: (Seq<char>, PartitionKeyView))
    requires
        s.log.offsets.dom().finite(),
        s.log.offsets.contains_key(key),
        s.log.offsets[key].expire_timestamp_ms is None,
        if s.classic.groups.contains_key(key.0) {
            &&& s.classic.groups[key.0].empty_since is Some
            &&& !has_gone_by(time::whole_millis(s.classic.groups[key.0].empty_since->0) as i64, now_ms, retention_ms)
            &&& !has_gone_by(s.log.offsets[key].commit_timestamp_ms, now_ms, retention_ms)
        } else {
            !has_gone_by(s.log.offsets[key].commit_timestamp_ms, now_ms, retention_ms)
        },
    ensures
        ({
            let after = offset_expiry::offsets_expired(s, now_ms, retention_ms, limit).0;
            after.log.offsets.contains_key(key) && after.log.offsets[key] == s.log.offsets[key]
        }),
{
    if retention_ms >= 0 && limit > 0 {
        what_has_expired_goes(s, now_ms, retention_ms, limit, key);
    }
}

/// When the session of a member of a classic group is over.
pub open spec fn end_of_session(member: GroupMemberView) -> int {
    numbers::clamped_i64(time::whole_millis(member.last_heartbeat) + member.session_timeout_ms)
}

proof fn last_sessions_are_found(members: Map<Seq<char>, GroupMemberView>, ids: Seq<Seq<char>>, x: Seq<char>)
    requires
        ids.contains(x),
        forall|i: int| 0 <= i < ids.len() ==> end_of_session(members[#[trigger] ids[i]]) <= end_of_session(members[x]),
    ensures
        offset_expiry::last_session_end(members, ids) == Some(end_of_session(members[x])),
    decreases ids.len(),
{
    let rest = ids.drop_last();
    let i = choose|i: int| 0 <= i < ids.len() && ids[i] == x;
    assert(ids[ids.len() - 1] == ids.last());
    assert forall|k: int| 0 <= k < rest.len() implies end_of_session(members[#[trigger] rest[k]]) <= end_of_session(members[x]) by {
        assert(rest[k] == ids[k]);
    }
    if i < rest.len() {
        assert(rest[i] == x);
        last_sessions_are_found(members, rest, x);
    } else {
        earlier_sessions_are_no_later(members, rest, x);
    }
}

proof fn earlier_sessions_are_no_later(members: Map<Seq<char>, GroupMemberView>, ids: Seq<Seq<char>>, x: Seq<char>)
    requires
        forall|i: int| 0 <= i < ids.len() ==> end_of_session(members[#[trigger] ids[i]]) <= end_of_session(members[x]),
    ensures
        offset_expiry::last_session_end(members, ids) is Some ==> offset_expiry::last_session_end(members, ids)->0 <= end_of_session(members[x]),
    decreases ids.len(),
{
    if ids.len() > 0 {
        let rest = ids.drop_last();
        assert forall|k: int| 0 <= k < rest.len() implies end_of_session(members[#[trigger] rest[k]]) <= end_of_session(members[x]) by {
            assert(rest[k] == ids[k]);
        }
        earlier_sessions_are_no_later(members, rest, x);
        assert(ids[ids.len() - 1] == ids.last());
    }
}

/// The offsets of a classic group whose members are all gone are kept for `retention_ms` from when the last
/// of their sessions was over, and then they go.
pub proof fn offsets_of_deserted_groups_go_after_a_while(
    s: StoreView,
    now_ms: i64,
    retention_ms: i64,
    limit: nat,
    key: (Seq<char>, PartitionKeyView),
    x: Seq<char>,
)
    requires
        s.log.offsets.dom().finite(),
        s.log.offsets.dom().len() <= u64::MAX,
        s.log.offsets.contains_key(key),
        s.log.offsets[key].expire_timestamp_ms is None,
        retention_ms >= 0,
        limit > 0,
        s.classic.groups.contains_key(key.0),
        s.classic.groups[key.0].members.dom().finite(),
        s.classic.groups[key.0].empty_since is None,
        !s.classic.groups[key.0].rebalance_pending,
        s.classic.groups[key.0].members.contains_key(x),
        forall|y: Seq<char>| #[trigger] s.classic.groups[key.0].members.contains_key(y) ==> end_of_session(s.classic.groups[key.0].members[y])
            <= end_of_session(s.classic.groups[key.0].members[x]),
        time::FIRST_MILLI <= end_of_session(s.classic.groups[key.0].members[x]) <= time::LAST_MILLI,
        end_of_session(s.classic.groups[key.0].members[x]) <= now_ms,
    ensures
        ({
            let (after, answer) = offset_expiry::offsets_expired(s, now_ms, retention_ms, limit);
            let end = end_of_session(s.classic.groups[key.0].members[x]);
            &&& answer is Ok
            &&& !has_gone_by(end as i64, now_ms, retention_ms) ==> after.log.offsets.contains_key(key) && after.log.offsets[key]
                == s.log.offsets[key]
            &&& has_gone_by(end as i64, now_ms, retention_ms) && !is_held(s.log.transactions, key) && answer->Ok_0 < limit
                ==> !after.log.offsets.contains_key(key)
        }),
{
    what_has_expired_goes(s, now_ms, retention_ms, limit, key);
    let looked = offset_expiry::groups_aged(s, now_ms);
    let g = s.classic.groups[key.0];
    let h = looked.classic.groups[key.0];
    let end = end_of_session(g.members[x]);
    assert(h == offset_expiry::aged(g, now_ms));
    assert(!offset_expiry::some_present(g, now_ms)) by {
        if offset_expiry::some_present(g, now_ms) {
            let y = choose|y: Seq<char>| #[trigger] g.members.contains_key(y) && offset_expiry::is_present(g, g.members[y], now_ms);
            assert(end_of_session(g.members[y]) <= end);
        }
    }
    assert(!offset_expiry::some_present(h, now_ms)) by {
        if offset_expiry::some_present(h, now_ms) {
            let y = choose|y: Seq<char>| #[trigger] h.members.contains_key(y) && offset_expiry::is_present(h, h.members[y], now_ms);
            assert(g.members.contains_key(y) && offset_expiry::is_present(g, g.members[y], now_ms));
        }
    }
    sorted_map::finite_sets_are_listed::<String>(g.members.dom());
    let ids = classic_groups::ordered(g.members.dom());
    assert(ids.to_set().contains(x));
    assert forall|i: int| 0 <= i < ids.len() implies end_of_session(g.members[#[trigger] ids[i]]) <= end by {
        assert(ids.to_set().contains(ids[i]));
        assert(g.members.contains_key(ids[i]));
    }
    last_sessions_are_found(g.members, ids, x);
    assert(h.empty_since == Some(end * 1_000_000));
    assert(time::whole_millis(end * 1_000_000) == end);
    if offset_expiry::is_pending(looked.log.transactions, key) {
        let id = choose|id: u128| #[trigger]
            looked.log.transactions.contains_key(id) && looked.log.transactions[id].status == TransactionStatus::Ongoing
                && looked.log.transactions[id].offsets.contains_key(key);
        assert(s.log.transactions.contains_key(id));
    }
}

/// What nobody needs goes: an offset whose own time is over, or that has no such time, whose group is
/// gone and that was committed `retention_ms` ago, is forgotten in a pass that does not reach its limit,
/// unless an open transaction holds it. So does one of a consumer group that no member reads any more.
pub proof fn old_offsets_go(s: StoreView, now_ms: i64, retention_ms: i64, limit: nat, key: (Seq<char>, PartitionKeyView))
    requires
        s.log.offsets.dom().finite(),
        s.log.offsets.dom().len() <= u64::MAX,
        s.log.offsets.contains_key(key),
        retention_ms >= 0,
        limit > 0,
        !is_held(s.log.transactions, key),
        ({
            let offset = s.log.offsets[key];
            if offset.expire_timestamp_ms is Some {
                now_ms >= offset.expire_timestamp_ms->0
            } else {
                &&& has_gone_by(offset.commit_timestamp_ms, now_ms, retention_ms)
                &&& !s.classic.groups.contains_key(key.0)
                &&& s.consumer_groups.contains_key(key.0) ==> forall|id: Seq<char>| #[trigger]
                    s.consumer_groups[key.0].members.contains_key(id) ==> {
                        let member = s.consumer_groups[key.0].members[id];
                        ||| member.member_epoch != -2 && !lasts(member.last_heartbeat, member.session_timeout_ms, now_ms)
                        ||| !member.subscribed_topic_names.contains(key.1.topic) && member.subscribed_topic_regex is None
                    }
                &&& !s.consumer_groups.contains_key(key.0) && s.streams_groups.contains_key(key.0) ==> forall|id: Seq<char>| #[trigger]
                    s.streams_groups[key.0].members.contains_key(id) ==> !lasts(
                        s.streams_groups[key.0].members[id].last_heartbeat,
                        s.streams_groups[key.0].members[id].session_timeout_ms,
                        now_ms,
                    )
            }
        }),
    ensures
        ({
            let (after, answer) = offset_expiry::offsets_expired(s, now_ms, retention_ms, limit);
            answer is Ok && (answer->Ok_0 < limit ==> !after.log.offsets.contains_key(key))
        }),
{
    what_has_expired_goes(s, now_ms, retention_ms, limit, key);
    let looked = offset_expiry::groups_aged(s, now_ms);
    if offset_expiry::is_pending(looked.log.transactions, key) {
        let id = choose|id: u128| #[trigger]
            looked.log.transactions.contains_key(id) && looked.log.transactions[id].status == TransactionStatus::Ongoing
                && looked.log.transactions[id].offsets.contains_key(key);
        assert(s.log.transactions.contains_key(id));
    }
    if s.consumer_groups.contains_key(key.0) && offset_expiry::consumers_read(looked.consumer_groups[key.0], key.1.topic, now_ms)
        && s.log.offsets[key].expire_timestamp_ms is None {
        let m = s.consumer_groups[key.0].members;
        let id = choose|id: Seq<char>| #[trigger]
            m.contains_key(id) && (m[id].member_epoch == AWAY || offset_expiry::session_end(m[id].last_heartbeat, m[id].session_timeout_ms) > now_ms)
                && offset_expiry::subscribes(m[id], key.1.topic);
        assert(m.contains_key(id));
    }
}

/// An offset of a streams group stays while the group has a member whose session lasts and its
/// application reads the topic.
pub proof fn offsets_of_reading_streams_stay(
    s: StoreView,
    now_ms: i64,
    retention_ms: i64,
    limit: nat,
    key: (Seq<char>, PartitionKeyView),
    member_id: Seq<char>,
    i: int,
)
    requires
        s.log.offsets.dom().finite(),
        s.log.offsets.contains_key(key),
        s.log.offsets[key].expire_timestamp_ms is None,
        !s.classic.groups.contains_key(key.0),
        !s.consumer_groups.contains_key(key.0),
        s.streams_groups.contains_key(key.0),
        s.streams_groups[key.0].members.contains_key(member_id),
        lasts(s.streams_groups[key.0].members[member_id].last_heartbeat, s.streams_groups[key.0].members[member_id].session_timeout_ms, now_ms),
        0 <= i < s.streams_groups[key.0].subtopologies.len(),
        ({
            let part = s.streams_groups[key.0].subtopologies[i];
            ||| part.source_topics.contains(key.1.topic)
            ||| part.repartition_source_topics.contains(key.1.topic)
            ||| exists|j: int|
                0 <= j < part.source_topic_regex.len() && patterns::matches_whole(#[trigger] part.source_topic_regex[j], key.1.topic)
        }),
    ensures
        ({
            let after = offset_expiry::offsets_expired(s, now_ms, retention_ms, limit).0;
            after.log.offsets.contains_key(key) && after.log.offsets[key] == s.log.offsets[key]
        }),
{
    if retention_ms >= 0 && limit > 0 {
        what_has_expired_goes(s, now_ms, retention_ms, limit, key);
        let group = offset_expiry::groups_aged(s, now_ms).streams_groups[key.0];
        assert(group.members.contains_key(member_id));
        assert(offset_expiry::part_reads(group.subtopologies[i], key.1.topic));
    }
}

/// A pass forgets as many offsets as it says, and no more than its limit; a negative retention is
/// refused.
pub proof fn passes_count_forgotten_offsets(s: StoreView, now_ms: i64, retention_ms: i64, limit: nat)
    requires
        s.log.offsets.dom().finite(),
        s.log.offsets.dom().len() <= u64::MAX,
    ensures
        ({
            let (after, answer) = offset_expiry::offsets_expired(s, now_ms, retention_ms, limit);
            &&& answer is Err <==> retention_ms < 0
            &&& answer is Err ==> after == s
            &&& answer is Ok ==> answer->Ok_0 <= limit && after.log.offsets.dom().len() + answer->Ok_0 == s.log.offsets.dom().len()
        }),
{
    if retention_ms >= 0 && limit > 0 {
        let looked = offset_expiry::groups_aged(s, now_ms);
        let due = offset_expiry::expired_offsets(looked, now_ms, retention_ms).dom();
        vstd::set_lib::lemma_set_subset_finite(s.log.offsets.dom(), due);
        vstd::set_lib::lemma_len_subset(due, s.log.offsets.dom());
        sorted_map::finite_sets_are_listed::<(String, PartitionKey)>(due);
        let all = sorted_map::sorted_keys::<(String, PartitionKey)>(due);
        sorted_map::strictly_sorted_unique::<(String, PartitionKey)>(all);
        let keys = producer_expiry::first_of(all, limit);
        assert(keys.no_duplicates());
        keys.unique_seq_to_set();
        assert(keys.to_set().subset_of(s.log.offsets.dom())) by {
            assert forall|k: (Seq<char>, PartitionKeyView)| #[trigger] keys.to_set().contains(k) implies s.log.offsets.dom().contains(k) by {
                let i = choose|i: int| 0 <= i < keys.len() && keys[i] == k;
                assert(all[i] == k);
                assert(all.to_set().contains(k));
            }
        }
        let after = offset_expiry::offsets_expired(s, now_ms, retention_ms, limit).0;
        assert(after.log.offsets.dom() =~= s.log.offsets.dom().difference(keys.to_set()));
        vstd::seq_lib::seq_to_set_is_finite(keys);
        assert(s.log.offsets.dom().intersect(keys.to_set()) =~= keys.to_set());
        vstd::set_lib::lemma_set_intersect_union_lens(s.log.offsets.dom().difference(keys.to_set()), keys.to_set());
        assert(s.log.offsets.dom().difference(keys.to_set()).union(keys.to_set()) =~= s.log.offsets.dom());
        assert(s.log.offsets.dom().difference(keys.to_set()).intersect(keys.to_set()) =~= Set::empty());
    }
}

/// Groups outlive an expiry pass while they have a member or an offset left; consumer groups and
/// streams groups that go had neither.
pub proof fn groups_in_use_outlive_expiry(s: StoreView, now_ms: i64, retention_ms: i64, limit: nat, id: Seq<char>, member_id: Seq<char>)
    ensures
        ({
            let after = offset_expiry::offsets_expired(s, now_ms, retention_ms, limit).0;
            let kept = exists|key: (Seq<char>, PartitionKeyView)| #[trigger] after.log.offsets.contains_key(key) && key.0 == id;
            &&& s.consumer_groups.contains_key(id) && (kept || s.consumer_groups[id].members.contains_key(member_id))
                ==> after.consumer_groups.contains_key(id) && after.consumer_groups[id] == s.consumer_groups[id]
            &&& s.streams_groups.contains_key(id) && (kept || s.streams_groups[id].members.contains_key(member_id))
                ==> after.streams_groups.contains_key(id) && after.streams_groups[id] == s.streams_groups[id]
            &&& s.classic.groups.contains_key(id) && (kept || (s.classic.groups[id].members.contains_key(member_id) && lasts(
                s.classic.groups[id].members[member_id].last_heartbeat,
                s.classic.groups[id].members[member_id].session_timeout_ms,
                now_ms,
            ))) ==> after.classic.groups.contains_key(id) && after.classic.groups[id].members == s.classic.groups[id].members
                && after.classic.groups[id].generation_id == s.classic.groups[id].generation_id
            &&& after.share_groups == s.share_groups
        }),
{
    if retention_ms >= 0 && limit > 0 {
        let after = offset_expiry::offsets_expired(s, now_ms, retention_ms, limit).0;
        if exists|key: (Seq<char>, PartitionKeyView)| #[trigger] after.log.offsets.contains_key(key) && key.0 == id {
            assert(group_admin::has_offsets(after.log.offsets, id));
        }
        if s.consumer_groups.contains_key(id) && s.consumer_groups[id].members.contains_key(member_id) {
            assert(s.consumer_groups[id].members.dom().contains(member_id));
        }
        if s.classic.groups.contains_key(id) && s.classic.groups[id].members.contains_key(member_id) && lasts(
            s.classic.groups[id].members[member_id].last_heartbeat,
            s.classic.groups[id].members[member_id].session_timeout_ms,
            now_ms,
        ) {
            let group = s.classic.groups[id];
            assert(offset_expiry::is_present(group, group.members[member_id], now_ms));
            assert(offset_expiry::some_present(group, now_ms));
        }
    }
}

} // verus!
