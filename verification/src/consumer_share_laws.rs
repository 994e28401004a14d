//! That a consumer group reads every partition of the topics it subscribes to.

use crate::consumer_assignor;
use crate::consumer_groups;
use crate::consumer_heartbeat;
use crate::consumer_laws;
use crate::consumer_reconcile;
use crate::consumer_target_laws;
use crate::consumer_types;
use crate::consumer_types::{
    ConsumerGroupHeartbeatView, ConsumerGroupStateView, ConsumerMemberStateView, ConsumerTopicAssignmentView, GroupAssignmentCompletion,
    GroupAssignmentTaskView,
};
use crate::partition::TopicInfoView;
use crate::patterns;
use crate::sorted_map;
use vstd::prelude::*;

verus! {

/// Whether a list of assignments holds a partition of a topic.
pub open spec fn lists(list: Seq<ConsumerTopicAssignmentView>, topic_id: u128, partition: i32) -> bool {
    exists|j: int| 0 <= j < list.len() && (#[trigger] list[j]).topic_id == topic_id && list[j].partitions.contains(partition)
}

/// Whether a partition is meant for a member.
pub open spec fn is_meant_for(member: ConsumerMemberStateView, topic_id: u128, partition: i32) -> bool {
    lists(member.target_assignment, topic_id, partition)
}

/// Whether a member subscribes to a topic, by its name or by a pattern that matches the name as a whole.
pub open spec fn wants(member: ConsumerMemberStateView, topic: TopicInfoView) -> bool {
    member.subscribed_topic_names.contains(topic.name) || (member.subscribed_topic_regex is Some && patterns::matches_whole(
        member.subscribed_topic_regex->0,
        topic.name,
    ))
}

/// Whether every partition of every topic to which some member subscribes by name is meant for exactly
/// one member, which subscribes to the topic.
pub open spec fn all_are_read(members: Map<Seq<char>, ConsumerMemberStateView>, topics: Seq<TopicInfoView>) -> bool {
    forall|i: int, p: i32, m: Seq<char>|
        #![trigger topics[i], has_partition(topics, i, p), members.contains_key(m)]
        has_partition(topics, i, p) && members.contains_key(m) && members[m].subscribed_topic_names.contains(topics[i].name)
            ==> is_read_once(members, topics[i], p)
}

/// Whether the `i`-th topic of a list has a partition of some number.
pub open spec fn has_partition(topics: Seq<TopicInfoView>, i: int, p: i32) -> bool {
    0 <= i < topics.len() && 0 <= p < topics[i].partitions
}

/// Whether a partition of a topic is meant for exactly one member, which subscribes to the topic.
pub open spec fn is_read_once(members: Map<Seq<char>, ConsumerMemberStateView>, topic: TopicInfoView, p: i32) -> bool {
    &&& exists|x: Seq<char>| #[trigger] members.contains_key(x) && is_meant_for(members[x], topic.id, p) && wants(members[x], topic)
    &&& forall|x: Seq<char>, y: Seq<char>|
        #[trigger] members.contains_key(x) && #[trigger] members.contains_key(y) && is_meant_for(members[x], topic.id, p) && is_meant_for(
            members[y],
            topic.id,
            p,
        ) ==> x == y
}

/// Whether members are meant to read nothing but partitions of existing topics to which they subscribe.
pub open spec fn nothing_else_is_read(members: Map<Seq<char>, ConsumerMemberStateView>, topics: Seq<TopicInfoView>) -> bool {
    forall|x: Seq<char>, id: u128, p: i32|
        #![trigger is_meant_for(members[x], id, p)]
        members.contains_key(x) && is_meant_for(members[x], id, p) ==> exists|i: int|
            has_partition(topics, i, p) && (#[trigger] topics[i]).id == id && wants(members[x], topics[i])
}

proof fn known_topics_have_names(topics: Seq<TopicInfoView>, id: u128)
    ensures
        consumer_types::names_of(topics).contains_key(id) <==> exists|i: int| 0 <= i < topics.len() && (#[trigger] topics[i]).id == id,
    decreases topics.len(),
{
    if topics.len() > 0 {
        let rest = topics.drop_last();
        known_topics_have_names(rest, id);
        if consumer_types::names_of(rest).contains_key(id) {
            let i = choose|i: int| 0 <= i < rest.len() && (#[trigger] rest[i]).id == id;
            assert(topics[i].id == id);
        }
        assert(topics[topics.len() - 1] == topics.last());
        if exists|i: int| 0 <= i < topics.len() && (#[trigger] topics[i]).id == id {
            let i = choose|i: int| 0 <= i < topics.len() && (#[trigger] topics[i]).id == id;
            if i < rest.len() {
                assert(rest[i].id == id);
            }
        }
    }
}

proof fn held_partitions_are_listed(hand: Map<u128, Map<i32, ()>>, names: Map<u128, Seq<char>>, id: u128, p: i32)
    requires
        hand.dom().finite(),
        forall|id: u128| #[trigger] hand.contains_key(id) ==> hand[id].dom().finite(),
    ensures
        lists(consumer_types::hand_list(hand, names), id, p) <==> consumer_laws::holds(hand, (id, p)),
{
    let list = consumer_types::hand_list(hand, names);
    if lists(list, id, p) {
        assert(consumer_types::assignment_set(list).contains((id, p)));
        consumer_target_laws::listed_partitions_are_held(hand, names, (id, p));
    }
    if consumer_laws::holds(hand, (id, p)) {
        let ids = sorted_map::sorted_keys::<u128>(hand.dom());
        sorted_map::finite_sets_are_listed::<u128>(hand.dom());
        assert(ids.to_set().contains(id));
        let j = choose|j: int| 0 <= j < ids.len() && ids[j] == id;
        sorted_map::finite_sets_are_listed::<i32>(hand[id].dom());
        assert(sorted_map::sorted_keys::<i32>(hand[id].dom()).to_set().contains(p));
        assert(list[j].topic_id == id && list[j].partitions.contains(p));
    }
}

/// Both assignors deal out every partition of a topic with a subscriber, to one member only and to one
/// that subscribes; and nothing else.
proof fn assignors_deal_out_everything(assignor: Seq<char>, topics: Seq<TopicInfoView>, subs: Map<Seq<char>, Map<u128, ()>>)
    requires
        subs.dom().finite(),
        consumer_target_laws::listed(topics),
        forall|m: Seq<char>, id: u128| #[trigger]
            subs.contains_key(m) && #[trigger] subs[m].contains_key(id) ==> exists|i: int| 0 <= i < topics.len() && (#[trigger] topics[i]).id == id,
    ensures
        ({
            let dealt = consumer_assignor::target_lists(assignor, topics, subs);
            &&& dealt.dom() == subs.dom()
            &&& forall|i: int, p: i32, m: Seq<char>|
                #![trigger topics[i], has_partition(topics, i, p), subs.contains_key(m)]
                has_partition(topics, i, p) && subs.contains_key(m) && subs[m].contains_key(topics[i].id) ==> {
                    &&& exists|x: Seq<char>| #[trigger] subs.contains_key(x) && lists(dealt[x], topics[i].id, p)
                    &&& forall|x: Seq<char>, y: Seq<char>|
                        #[trigger] subs.contains_key(x) && #[trigger] subs.contains_key(y) && lists(dealt[x], topics[i].id, p) && lists(
                            dealt[y],
                            topics[i].id,
                            p,
                        ) ==> x == y
                }
            &&& forall|x: Seq<char>, id: u128, p: i32|
                #![trigger lists(dealt[x], id, p)]
                subs.contains_key(x) && lists(dealt[x], id, p) ==> subs[x].contains_key(id) && exists|i: int|
                    has_partition(topics, i, p) && (#[trigger] topics[i]).id == id
        }),
{
    let dealt = consumer_assignor::target_lists(assignor, topics, subs);
    let names = consumer_types::names_of(topics);
    let known = |id: u128, partitions: Map<i32, ()>| names.contains_key(id);
    let by_range = assignor == consumer_assignor::RANGE_ASSIGNOR@;
    let hands = if by_range {
        consumer_assignor::range_hands(topics, subs)
    } else {
        consumer_assignor::uniform_hands(topics, subs)
    };
    let sorted = consumer_assignor::by_name(topics);
    let turns = consumer_assignor::turns(sorted);
    consumer_laws::sorting_keeps_topics(topics);
    consumer_laws::sorted_length(topics);
    consumer_laws::turns_are_partitions(sorted);
    consumer_laws::dealing_gives_once(subs, turns);
    assert(hands.dom() =~= subs.dom());
    assert(dealt.dom() =~= subs.dom());
    assert forall|m: Seq<char>| #[trigger] subs.contains_key(m) implies hands[m].dom().finite() && (forall|id: u128| #[trigger]
        hands[m].contains_key(id) ==> hands[m][id].dom().finite()) by {
        if by_range {
            consumer_target_laws::range_hands_are_finite(topics, subs, m);
        } else {
            consumer_target_laws::hands_are_finite(subs, turns, m);
        }
    }
    assert forall|x: Seq<char>, id: u128, p: i32| #![trigger lists(dealt[x], id, p)] subs.contains_key(x) implies (lists(dealt[x], id, p)
        <==> consumer_laws::holds(hands[x], (id, p)) && names.contains_key(id)) by {
        let some = sorted_map::filtered(hands[x], known);
        assert(dealt[x] == consumer_types::hand_list(some, names));
        vstd::set_lib::lemma_len_subset(some.dom(), hands[x].dom());
        assert forall|i: u128| #[trigger] some.contains_key(i) implies some[i].dom().finite() by {
            assert(hands[x].contains_key(i));
        }
        held_partitions_are_listed(some, names, id, p);
    }
    assert forall|x: Seq<char>, id: u128, p: i32| #![trigger lists(dealt[x], id, p)] subs.contains_key(x) && lists(dealt[x], id, p)
        implies subs[x].contains_key(id) && exists|i: int| has_partition(topics, i, p) && (#[trigger] topics[i]).id == id by {
        assert(consumer_laws::holds(hands[x], (id, p)));
        if by_range {
            let i = choose|i: int| 0 <= i < topics.len() && (#[trigger] topics[i]).id == id && consumer_assignor::range_gives(topics[i], subs, x, p);
            consumer_target_laws::range_partitions_exist(topics[i], subs, x, p);
            assert(has_partition(topics, i, p));
        } else {
            assert(turns.contains((id, p)));
            let j = choose|j: int| 0 <= j < sorted.len() && (#[trigger] sorted[j]).id == id && 0 <= p < sorted[j].partitions;
            assert(sorted.contains(sorted[j]));
            let i = choose|i: int| 0 <= i < topics.len() && topics[i] == sorted[j];
            assert(has_partition(topics, i, p) && topics[i].id == id);
        }
    }
    assert forall|i: int, p: i32, m: Seq<char>| #![trigger topics[i], has_partition(topics, i, p), subs.contains_key(m)] has_partition(topics, i, p)
        && subs.contains_key(m) && subs[m].contains_key(topics[i].id) implies {
        &&& exists|x: Seq<char>| #[trigger] subs.contains_key(x) && lists(dealt[x], topics[i].id, p)
        &&& forall|x: Seq<char>, y: Seq<char>|
            #[trigger] subs.contains_key(x) && #[trigger] subs.contains_key(y) && lists(dealt[x], topics[i].id, p) && lists(
                dealt[y],
                topics[i].id,
                p,
            ) ==> x == y
    } by {
        let topic = topics[i];
        let q = (topic.id, p);
        let readers = consumer_assignor::subscriber_set(subs, topic.id);
        assert(readers.contains(m));
        assert(readers.subset_of(subs.dom()));
        vstd::set_lib::lemma_len_subset(readers, subs.dom());
        if readers.len() == 0 {
            readers.lemma_len0_is_empty();
        }
        known_topics_have_names(topics, topic.id);
        if by_range {
            consumer_laws::range_gives_each_partition_once(topic, subs, p);
            let x = choose|x: Seq<char>| consumer_assignor::range_gives(topic, subs, x, p);
            assert(hands[x].contains_key(topic.id));
            assert(hands[x][topic.id].contains_key(p));
            assert(consumer_laws::holds(hands[x], q));
            assert(lists(dealt[x], topic.id, p));
            assert forall|a: Seq<char>, b: Seq<char>| #[trigger] subs.contains_key(a) && #[trigger] subs.contains_key(b) && lists(
                dealt[a],
                topic.id,
                p,
            ) && lists(dealt[b], topic.id, p) implies a == b by {
                assert(consumer_laws::holds(hands[a], q) && consumer_laws::holds(hands[b], q));
                let j = choose|j: int| 0 <= j < topics.len() && (#[trigger] topics[j]).id == q.0 && consumer_assignor::range_gives(topics[j], subs, a, p);
                let k = choose|k: int| 0 <= k < topics.len() && (#[trigger] topics[k]).id == q.0 && consumer_assignor::range_gives(topics[k], subs, b, p);
                one_topic_has_the_id(topics, i, j);
                one_topic_has_the_id(topics, i, k);
            }
        } else {
            consumer_laws::uniform_gives_each_partition_once(topics, subs, i, p);
            let x = choose|x: Seq<char>| subs.contains_key(x) && #[trigger] consumer_laws::holds(hands[x], q);
            assert(lists(dealt[x], topic.id, p));
            assert forall|a: Seq<char>, b: Seq<char>| #[trigger] subs.contains_key(a) && #[trigger] subs.contains_key(b) && lists(
                dealt[a],
                topic.id,
                p,
            ) && lists(dealt[b], topic.id, p) implies a == b by {
                assert(consumer_laws::holds(hands[a], q) && consumer_laws::holds(hands[b], q));
            }
        }
    }
}

proof fn one_topic_has_the_id(topics: Seq<TopicInfoView>, i: int, j: int)
    requires
        consumer_laws::distinct_ids(topics),
        0 <= i < topics.len(),
        0 <= j < topics.len(),
        topics[i].id == topics[j].id,
    ensures
        i == j,
{
    if i < j {
        assert(topics[i].id != topics[j].id);
    } else if j < i {
        assert(topics[j].id != topics[i].id);
    }
}

/// Whether a group's assignment may be computed anew: none was, or the interval is none or over.
pub open spec fn may_assign(last: Option<int>, interval_ms: i32, now: int) -> bool {
    last is None || interval_ms == 0 || last->0 + interval_ms * 1_000_000 <= now
}

proof fn retargeted_groups_read_everything(group: ConsumerGroupStateView, topics: Seq<TopicInfoView>, changed: bool, now: int)
    requires
        consumer_target_laws::sound(group),
        consumer_target_laws::listed(topics),
        may_assign(group.assignment_timestamp, group.assignment_interval_ms, now),
        i128::MIN <= now <= i128::MAX,
        consumer_groups::retargeted(group, topics, changed, now) is Ok,
        consumer_groups::retargeted(group, topics, changed, now)->Ok_0.group_epoch < i32::MAX,
    ensures
        ({
            let after = consumer_groups::retargeted(group, topics, changed, now)->Ok_0;
            &&& all_are_read(after.members, topics)
            &&& nothing_else_is_read(after.members, topics)
            &&& after.group_epoch == after.assignment_epoch
            &&& changed ==> after.group_epoch > group.group_epoch
            &&& same_wishes(group.members, after.members)
            &&& after.assignment_epoch == group.assignment_epoch ==> after.members == group.members
            &&& (group.regex_refresh_pending ==> after.regex_refresh_timestamp == Some(now) && !after.regex_refresh_pending)
            &&& (!group.regex_refresh_pending ==> after.regex_refresh_timestamp == group.regex_refresh_timestamp)
            &&& group.regex_refresh_pending || !(exists|x: Seq<char>| #[trigger]
                group.members.contains_key(x) && group.members[x].subscribed_topic_regex is Some) ==> patterns_are_read(after.members, topics)
        }),
{
    let g = consumer_heartbeat::bumped(group, changed);
    let after = consumer_groups::retargeted(group, topics, changed, now)->Ok_0;
    let cached = if !g.regex_refresh_pending && consumer_groups::has_patterns(g.members) {
        Some(consumer_types::as_keys(consumer_groups::cached_topics(g.members, topics)))
    } else {
        None
    };
    assert(crate::assignment_interval::due(g.assignment_timestamp, g.assignment_interval_ms, now));
    let target = consumer_assignor::targets(g, topics, cached)->Ok_0;
    let subs = consumer_assignor::subscriptions(g.members, topics, cached);
    assert(subs.dom() =~= g.members.dom());
    assert forall|m: Seq<char>, id: u128| #[trigger] subs.contains_key(m) && #[trigger] subs[m].contains_key(id) implies exists|i: int|
        0 <= i < topics.len() && (#[trigger] topics[i]).id == id by {
        assert(g.members.contains_key(m));
    }
    assignors_deal_out_everything(g.assignor_name, topics, subs);
    assert(after.members.dom() =~= g.members.dom());
    assert forall|x: Seq<char>, id: u128, p: i32| #![trigger is_meant_for(after.members[x], id, p)] after.members.contains_key(x) implies (
    is_meant_for(after.members[x], id, p) <==> lists(target[x], id, p)) by {
        assert(g.members.contains_key(x));
        let have = consumer_types::assignment_set(after.members[x].target_assignment);
        let want = consumer_types::assignment_set(target[x]);
        assert(have == want);
        assert(have.contains((id, p)) <==> want.contains((id, p)));
        assert(lists(after.members[x].target_assignment, id, p) <==> have.contains((id, p)));
        assert(lists(target[x], id, p) <==> want.contains((id, p)));
    }
    assert forall|i: int, p: i32, m: Seq<char>| #![trigger topics[i], has_partition(topics, i, p), after.members.contains_key(m)] has_partition(
        topics,
        i,
        p,
    ) && after.members.contains_key(m) && (after.members[m].subscribed_topic_names.contains(topics[i].name) || (cached is None && wants(
        after.members[m],
        topics[i],
    ))) implies is_read_once(after.members, topics[i], p) by {
        assert(g.members.contains_key(m));
        assert(consumer_assignor::subscribes(g.members[m], topics[i], cached));
        assert(subs.contains_key(m) && subs[m].contains_key(topics[i].id));
        let x = choose|x: Seq<char>| #[trigger] subs.contains_key(x) && lists(target[x], topics[i].id, p);
        assert(after.members.contains_key(x) && is_meant_for(after.members[x], topics[i].id, p));
        assert(subs[x].contains_key(topics[i].id));
        let j = choose|j: int| 0 <= j < topics.len() && (#[trigger] topics[j]).id == topics[i].id && consumer_assignor::subscribes(
            g.members[x],
            topics[j],
            cached,
        );
        one_topic_has_the_id(topics, i, j);
        assert(wants(after.members[x], topics[i]));
    }
    assert forall|x: Seq<char>, id: u128, p: i32| #![trigger is_meant_for(after.members[x], id, p)] after.members.contains_key(x)
        && is_meant_for(after.members[x], id, p) implies exists|i: int|
        has_partition(topics, i, p) && (#[trigger] topics[i]).id == id && wants(after.members[x], topics[i]) by {
        assert(lists(target[x], id, p));
        assert(subs.contains_key(x));
        let i = choose|i: int| has_partition(topics, i, p) && (#[trigger] topics[i]).id == id;
        let j = choose|j: int| 0 <= j < topics.len() && (#[trigger] topics[j]).id == id && consumer_assignor::subscribes(g.members[x], topics[j], cached);
        one_topic_has_the_id(topics, i, j);
        assert(wants(after.members[x], topics[i]));
    }
    if group.regex_refresh_pending || !(exists|x: Seq<char>| #[trigger]
        group.members.contains_key(x) && group.members[x].subscribed_topic_regex is Some) {
        assert(cached is None);
    }
}

/// Whether two lists of members hold the same members, with the same subscriptions.
pub open spec fn same_wishes(a: Map<Seq<char>, ConsumerMemberStateView>, b: Map<Seq<char>, ConsumerMemberStateView>) -> bool {
    &&& a.dom() == b.dom()
    &&& forall|x: Seq<char>| #[trigger]
        a.contains_key(x) ==> a[x].subscribed_topic_names == b[x].subscribed_topic_names && a[x].subscribed_topic_regex
            == b[x].subscribed_topic_regex && a[x].owned_assignment == b[x].owned_assignment
}

/// Whether every partition of every topic to which some member subscribes, by name or by pattern, is
/// meant for exactly one member, which subscribes to the topic.
pub open spec fn patterns_are_read(members: Map<Seq<char>, ConsumerMemberStateView>, topics: Seq<TopicInfoView>) -> bool {
    forall|i: int, p: i32, m: Seq<char>|
        #![trigger topics[i], has_partition(topics, i, p), members.contains_key(m)]
        has_partition(topics, i, p) && members.contains_key(m) && wants(members[m], topics[i]) ==> is_read_once(members, topics[i], p)
}

proof fn reconciled_members_are_meant_for_the_same(group: ConsumerGroupStateView, member_id: Seq<char>, interval_ms: i32, topics: Seq<TopicInfoView>)
    requires
        group.members.contains_key(member_id),
    ensures
        ({
            let after = consumer_reconcile::reconciled(group, member_id, interval_ms).0;
            &&& all_are_read(group.members, topics) ==> all_are_read(after.members, topics)
            &&& patterns_are_read(group.members, topics) ==> patterns_are_read(after.members, topics)
            &&& nothing_else_is_read(group.members, topics) ==> nothing_else_is_read(after.members, topics)
            &&& after.group_epoch == group.group_epoch && after.assignment_epoch == group.assignment_epoch
            &&& after.regex_refresh_timestamp == group.regex_refresh_timestamp
        }),
{
    let after = consumer_reconcile::reconciled(group, member_id, interval_ms).0;
    assert(after.members.dom() =~= group.members.dom());
    assert forall|x: Seq<char>| #[trigger] after.members.contains_key(x) implies group.members.contains_key(x) && after.members[x].target_assignment
        == group.members[x].target_assignment && after.members[x].subscribed_topic_names == group.members[x].subscribed_topic_names
        && after.members[x].subscribed_topic_regex == group.members[x].subscribed_topic_regex by {}
    assert forall|topic: TopicInfoView, p: i32| #[trigger] is_read_once(group.members, topic, p) implies is_read_once(after.members, topic, p) by {
        let x = choose|x: Seq<char>| #[trigger]
            group.members.contains_key(x) && is_meant_for(group.members[x], topic.id, p) && wants(group.members[x], topic);
        assert(after.members.contains_key(x));
        assert forall|a: Seq<char>, b: Seq<char>| #[trigger] after.members.contains_key(a) && #[trigger] after.members.contains_key(b) && is_meant_for(
            after.members[a],
            topic.id,
            p,
        ) && is_meant_for(after.members[b], topic.id, p) implies a == b by {
            assert(group.members.contains_key(a) && group.members.contains_key(b));
        }
    }
    if all_are_read(group.members, topics) {
        assert forall|i: int, p: i32, m: Seq<char>| #![trigger topics[i], has_partition(topics, i, p), after.members.contains_key(m)] has_partition(
            topics,
            i,
            p,
        ) && after.members.contains_key(m) && after.members[m].subscribed_topic_names.contains(topics[i].name) implies is_read_once(
            after.members,
            topics[i],
            p,
        ) by {
            assert(group.members.contains_key(m));
            assert(is_read_once(group.members, topics[i], p));
        }
    }
    if patterns_are_read(group.members, topics) {
        assert forall|i: int, p: i32, m: Seq<char>| #![trigger topics[i], has_partition(topics, i, p), after.members.contains_key(m)] has_partition(
            topics,
            i,
            p,
        ) && after.members.contains_key(m) && wants(after.members[m], topics[i]) implies is_read_once(after.members, topics[i], p) by {
            assert(group.members.contains_key(m));
            assert(is_read_once(group.members, topics[i], p));
        }
    }
    if nothing_else_is_read(group.members, topics) {
        assert forall|x: Seq<char>, id: u128, p: i32| #![trigger is_meant_for(after.members[x], id, p)] after.members.contains_key(x)
            && is_meant_for(after.members[x], id, p) implies exists|i: int|
            has_partition(topics, i, p) && (#[trigger] topics[i]).id == id && wants(after.members[x], topics[i]) by {
            assert(is_meant_for(group.members[x], id, p));
            let i = choose|i: int| has_partition(topics, i, p) && (#[trigger] topics[i]).id == id && wants(group.members[x], topics[i]);
            assert(wants(after.members[x], topics[i]));
        }
    }
}

/// After a heartbeat of a group that is due for an assignment, whatever has happened to topics and
/// members since the last one, every partition of every present topic to which a member subscribes by
/// name is meant for exactly one member that subscribes to it, nobody is meant to read anything else,
/// and the assignment is that of the group's epoch. A heartbeat that takes over the seat of a static
/// member is left out, as is the last epoch that can be counted.
pub proof fn heartbeats_leave_no_partition_unread(
    state: Option<ConsumerGroupStateView>,
    request: ConsumerGroupHeartbeatView,
    topics: Seq<TopicInfoView>,
    now: int,
    fresh: Seq<char>,
)
    requires
        state is Some ==> consumer_target_laws::sound(state->0),
        consumer_target_laws::listed(topics),
        i128::MIN <= now <= i128::MAX,
        state is Some ==> may_assign(state->0.assignment_timestamp, request.assignment_interval_ms, now),
        request.member_epoch != -2,
        request.member_epoch != 0 || request.instance_id is None,
        consumer_heartbeat::beat(state, request, topics, now, false, fresh) is Ok,
        consumer_heartbeat::beat(state, request, topics, now, false, fresh)->Ok_0.0.group_epoch < i32::MAX,
    ensures
        ({
            let after = consumer_heartbeat::beat(state, request, topics, now, false, fresh)->Ok_0.0;
            &&& all_are_read(after.members, topics)
            &&& nothing_else_is_read(after.members, topics)
            &&& after.assignment_epoch == after.group_epoch
            &&& (forall|x: Seq<char>| #[trigger] after.members.contains_key(x) ==> after.members[x].subscribed_topic_regex is None)
                || after.regex_refresh_timestamp == Some(now) && (state is None || state->0.regex_refresh_timestamp != Some(now))
                ==> patterns_are_read(after.members, topics)
        }),
{
    let asked = consumer_heartbeat::identified(request, fresh);
    let start = if state is Some {
        state->0
    } else {
        consumer_groups::new_group(request.group_id, request.configured_assignors[0])
    };
    let expired = consumer_groups::some_silent(start, now);
    let g = ConsumerGroupStateView { assignment_interval_ms: request.assignment_interval_ms, ..consumer_groups::without_silent(start, now) };
    consumer_target_laws::removing_keeps_sound(start, g.members);
    assert(consumer_target_laws::sound(g));
    let after = consumer_heartbeat::beat(state, request, topics, now, false, fresh)->Ok_0.0;
    if request.member_epoch == -1 {
        let rest = ConsumerGroupStateView { members: g.members.remove(asked.member_id), ..g };
        consumer_target_laws::removing_keeps_sound(g, rest.members);
        let ready = consumer_groups::with_refresh_state(rest, topics, false, request.regex_refresh_interval_ms, now)->Ok_0;
        assert(consumer_target_laws::sound(ready));
        retargeted_groups_read_everything(ready, topics, true, now);
    } else {
        consumer_target_laws::seats_are_sound(g, asked, topics, now);
        let seat = consumer_heartbeat::seat_of(g, asked, topics, now)->Ok_0;
        let member = consumer_groups::with_request(seat.member, asked, topics, now);
        let introduced = member.subscribed_topic_regex is Some && !consumer_groups::has_pattern(seat.group.members, member.subscribed_topic_regex->0);
        let full = ConsumerGroupStateView { members: seat.group.members.insert(asked.member_id, member), ..seat.group };
        consumer_target_laws::seating_keeps_sound(seat.group, asked.member_id, member);
        let refreshed = consumer_groups::with_refresh_state(full, topics, introduced, request.regex_refresh_interval_ms, now)->Ok_0;
        let chosen = if request.server_assignor is Some {
            ConsumerGroupStateView { assignor_name: request.server_assignor->0, ..refreshed }
        } else {
            refreshed
        };
        let triggered = expired || seat.is_new || consumer_groups::metadata_differs(seat.member, member)
            || chosen.assignor_name != refreshed.assignor_name;
        assert(consumer_target_laws::sound(chosen));
        assert(!seat.replaces_static);
        let ready = consumer_groups::retargeted(chosen, topics, triggered, now)->Ok_0;
        retargeted_groups_read_everything(chosen, topics, triggered, now);
        assert(ready.members.dom().contains(asked.member_id));
        reconciled_members_are_meant_for_the_same(ready, asked.member_id, request.heartbeat_interval_ms, topics);
    }
}

/// An assignment that is computed later does the same, where the group is as it was when the assignment
/// was asked for; and where it is not, nothing changes.
pub proof fn completions_leave_no_partition_unread(group: ConsumerGroupStateView, topics: Seq<TopicInfoView>, task: GroupAssignmentTaskView, now: int)
    requires
        consumer_target_laws::sound(group),
        consumer_target_laws::listed(topics),
        i128::MIN <= now <= i128::MAX,
        may_assign(group.assignment_timestamp, group.assignment_interval_ms, now),
        consumer_heartbeat::completed(group, topics, task, now) is Ok,
        consumer_heartbeat::completed(group, topics, task, now)->Ok_0.0.group_epoch < i32::MAX,
    ensures
        ({
            let (after, outcome) = consumer_heartbeat::completed(group, topics, task, now)->Ok_0;
            let behind = task.group_id != group.group_id || task.group_epoch != group.group_epoch || task.assignment_epoch != group.assignment_epoch
                || task.assignment_timestamp != group.assignment_timestamp;
            &&& behind ==> after == group && outcome == GroupAssignmentCompletion::Stale
            &&& outcome != GroupAssignmentCompletion::Stale ==> {
                &&& !behind
                &&& all_are_read(after.members, topics)
                &&& nothing_else_is_read(after.members, topics)
                &&& after.group_epoch == after.assignment_epoch
                &&& outcome == GroupAssignmentCompletion::Published <==> after.assignment_epoch != group.assignment_epoch
                &&& outcome == GroupAssignmentCompletion::Unchanged ==> after.members == group.members && after.assignment_timestamp == Some(now)
                &&& group.regex_refresh_pending ==> patterns_are_read(after.members, topics) && !after.regex_refresh_pending
                    && after.regex_refresh_timestamp == Some(now)
            }
        }),
{
    if task == consumer_heartbeat::task_for(group) {
        retargeted_groups_read_everything(group, topics, false, now);
    }
}

} // verus!
