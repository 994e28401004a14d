//! That a consumer group never means one partition for two members.

use crate::consumer_assignor;
use crate::consumer_groups;
use crate::consumer_heartbeat;
use crate::consumer_laws;
use crate::consumer_reconcile;
use crate::consumer_types;
use crate::consumer_types::{
    ConsumerGroupHeartbeatView, ConsumerGroupStateView, ConsumerMemberStateView, ConsumerTopicAssignmentView, GroupAssignmentTaskView,
};
use crate::partition::TopicInfoView;
use crate::sorted_map;
use crate::store;
use crate::store::StoreView;
use crate::topics;
use vstd::prelude::*;

verus! {

/// Whether two lists of assignments have no partition in common.
pub open spec fn apart(a: Seq<ConsumerTopicAssignmentView>, b: Seq<ConsumerTopicAssignmentView>) -> bool {
    consumer_types::assignment_set(a).disjoint(consumer_types::assignment_set(b))
}

/// Whether no partition is in the targets of two members.
pub open spec fn targets_apart(members: Map<Seq<char>, ConsumerMemberStateView>) -> bool {
    forall|a: Seq<char>, b: Seq<char>|
        a != b && #[trigger] members.contains_key(a) && #[trigger] members.contains_key(b) ==> apart(
            members[a].target_assignment,
            members[b].target_assignment,
        )
}

/// Whether no member is ahead of the group's assignment, and a member that has reached it has only
/// partitions of its target.
pub open spec fn members_follow(group: ConsumerGroupStateView) -> bool {
    forall|id: Seq<char>| #[trigger]
        group.members.contains_key(id) ==> follows(group.members[id], group.assignment_epoch)
}

/// Whether a member is not ahead of an assignment epoch, and has only partitions of its target once
/// it has reached it.
pub open spec fn follows(member: ConsumerMemberStateView, assignment_epoch: i32) -> bool {
    &&& member.member_epoch <= assignment_epoch
    &&& member.member_epoch == assignment_epoch ==> consumer_types::assignment_set(member.current_assignment).subset_of(
        consumer_types::assignment_set(member.target_assignment),
    )
}

/// What holds of a consumer group at all times.
pub open spec fn sound(group: ConsumerGroupStateView) -> bool {
    &&& group.members.dom().finite()
    &&& 1 <= group.assignment_epoch <= group.group_epoch
    &&& targets_apart(group.members)
    &&& members_follow(group)
}

pub(crate) proof fn hands_are_finite(subs: Map<Seq<char>, Map<u128, ()>>, turns: Seq<(u128, i32)>, m: Seq<char>)
    requires
        subs.dom().finite(),
        subs.contains_key(m),
    ensures
        ({
            let hand = consumer_assignor::dealt(subs, turns).hands[m];
            &&& hand.dom().finite()
            &&& forall|id: u128| #[trigger] hand.contains_key(id) ==> hand[id].dom().finite()
        }),
    decreases turns.len(),
{
    if turns.len() > 0 {
        hands_are_finite(subs, turns.drop_last(), m);
        let before = consumer_assignor::dealt(subs, turns.drop_last());
        let (id, p) = turns.last();
        if let Some(x) = consumer_assignor::least_loaded(consumer_assignor::subscribers(subs, id), before.loads) {
            if x == m {
                let hand = consumer_assignor::dealt(subs, turns).hands[m];
                assert(hand == consumer_types::with_pair(before.hands[m], id, p));
                assert(hand.dom() =~= before.hands[m].dom().insert(id));
                assert forall|i: u128| #[trigger] hand.contains_key(i) implies hand[i].dom().finite() by {
                    if i == id {
                        let had = if before.hands[m].contains_key(id) {
                            before.hands[m][id]
                        } else {
                            Map::empty()
                        };
                        assert(hand[i].dom() =~= had.dom().insert(p));
                    } else {
                        assert(before.hands[m].contains_key(i));
                    }
                }
            }
        }
    }
}

pub(crate) proof fn listed_partitions_are_held(hand: Map<u128, Map<i32, ()>>, names: Map<u128, Seq<char>>, p: (u128, i32))
    requires
        hand.dom().finite(),
        forall|id: u128| #[trigger] hand.contains_key(id) ==> hand[id].dom().finite(),
        consumer_types::assignment_set(consumer_types::hand_list(hand, names)).contains(p),
    ensures
        consumer_laws::holds(hand, p),
{
    let list = consumer_types::hand_list(hand, names);
    let ids = sorted_map::sorted_keys::<u128>(hand.dom());
    sorted_map::finite_sets_are_listed::<u128>(hand.dom());
    let i = choose|i: int| 0 <= i < list.len() && (#[trigger] list[i]).topic_id == p.0 && list[i].partitions.contains(p.1);
    assert(ids.contains(ids[i]));
    assert(ids.to_set().contains(ids[i]));
    assert(hand.contains_key(p.0));
    sorted_map::finite_sets_are_listed::<i32>(hand[p.0].dom());
    let partitions = sorted_map::sorted_keys::<i32>(hand[p.0].dom());
    assert(partitions.to_set().contains(p.1));
}

pub(crate) proof fn range_partitions_exist(topic: TopicInfoView, subs: Map<Seq<char>, Map<u128, ()>>, m: Seq<char>, p: i32)
    requires
        subs.dom().finite(),
        topic.partitions >= 0,
        consumer_assignor::range_gives(topic, subs, m, p),
    ensures
        0 <= p < topic.partitions,
        consumer_assignor::subscriber_set(subs, topic.id).len() > 0,
{
    consumer_assignor::subscriber_lists(subs);
    let order = consumer_assignor::subscribers(subs, topic.id);
    let members = consumer_assignor::subscriber_set(subs, topic.id);
    let i = order.index_of(m);
    assert(0 <= i < order.len());
    consumer_assignor::range_bounds(topic.partitions as int, order.len() as int, i);
    assert(order.to_set().contains(m));
    assert(members.contains(m));
    assert(members.finite()) by {
        vstd::seq_lib::seq_to_set_is_finite(order);
    }
    if members.len() == 0 {
        members.lemma_len0_is_empty();
    }
}

pub(crate) proof fn range_hands_are_finite(topics: Seq<TopicInfoView>, subs: Map<Seq<char>, Map<u128, ()>>, m: Seq<char>)
    requires
        subs.dom().finite(),
        consumer_assignor::countable(topics),
    ensures
        ({
            let hand = consumer_assignor::range_hand(topics, subs, m);
            &&& hand.dom().finite()
            &&& forall|id: u128| #[trigger] hand.contains_key(id) ==> hand[id].dom().finite()
        }),
{
    let hand = consumer_assignor::range_hand(topics, subs, m);
    let ids = topics.map_values(|t: TopicInfoView| t.id);
    vstd::seq_lib::seq_to_set_is_finite(ids);
    assert forall|id: u128| #[trigger] hand.dom().contains(id) implies ids.to_set().contains(id) by {
        let i = choose|i: int| 0 <= i < topics.len() && (#[trigger] topics[i]).id == id;
        assert(ids[i] == id);
    }
    vstd::set_lib::lemma_len_subset(hand.dom(), ids.to_set());
    assert forall|id: u128| #[trigger] hand.contains_key(id) implies hand[id].dom().finite() by {
        let numbers = vstd::set_lib::set_int_range(0, 0x8000_0000);
        vstd::set_lib::lemma_int_range(0, 0x8000_0000);
        let narrow = |x: int| x as i32;
        numbers.lemma_map_finite(narrow);
        assert forall|p: i32| #[trigger] hand[id].dom().contains(p) implies numbers.map(narrow).contains(p) by {
            let i = choose|i: int| 0 <= i < topics.len() && (#[trigger] topics[i]).id == id && consumer_assignor::range_gives(topics[i], subs, m, p);
            range_partitions_exist(topics[i], subs, m, p);
            assert(numbers.contains(p as int));
            assert(narrow(p as int) == p);
        }
        vstd::set_lib::lemma_len_subset(hand[id].dom(), numbers.map(narrow));
    }
}

/// What either assignor gives two members has no partition in common.
proof fn lists_are_apart(
    assignor: Seq<char>,
    topics: Seq<TopicInfoView>,
    subs: Map<Seq<char>, Map<u128, ()>>,
    a: Seq<char>,
    b: Seq<char>,
)
    requires
        subs.dom().finite(),
        consumer_assignor::countable(topics),
        consumer_laws::distinct_ids(topics),
        topics.len() <= u64::MAX,
        subs.contains_key(a),
        subs.contains_key(b),
        a != b,
    ensures
        apart(consumer_assignor::target_lists(assignor, topics, subs)[a], consumer_assignor::target_lists(assignor, topics, subs)[b]),
{
    let lists = consumer_assignor::target_lists(assignor, topics, subs);
    let names = consumer_types::names_of(topics);
    let known = |id: u128, partitions: Map<i32, ()>| names.contains_key(id);
    let by_range = assignor == consumer_assignor::RANGE_ASSIGNOR@;
    let hands = if by_range {
        consumer_assignor::range_hands(topics, subs)
    } else {
        consumer_assignor::uniform_hands(topics, subs)
    };
    let sorted = consumer_assignor::by_name(topics);
    let turns = consumer_assignor::turns(sorted);
    consumer_laws::sorting_keeps_topics(topics);
    consumer_laws::sorted_length(topics);
    consumer_laws::turns_are_partitions(sorted);
    consumer_laws::dealing_gives_once(subs, turns);
    assert forall|m: Seq<char>| #[trigger] subs.contains_key(m) implies hands.contains_key(m) && hands[m].dom().finite() && (forall|id: u128|
        #[trigger] hands[m].contains_key(id) ==> hands[m][id].dom().finite()) by {
        if by_range {
            range_hands_are_finite(topics, subs, m);
        } else {
            hands_are_finite(subs, turns, m);
        }
    }
    assert forall|m: Seq<char>, p: (u128, i32)| subs.contains_key(m) && #[trigger] consumer_types::assignment_set(lists[m]).contains(p)
        implies consumer_laws::holds(hands[m], p) by {
        let some = sorted_map::filtered(hands[m], known);
        assert(lists[m] == consumer_types::hand_list(some, names));
        vstd::set_lib::lemma_len_subset(some.dom(), hands[m].dom());
        assert forall|id: u128| #[trigger] some.contains_key(id) implies some[id].dom().finite() by {
            assert(hands[m].contains_key(id));
        }
        listed_partitions_are_held(some, names, p);
    }
    assert forall|p: (u128, i32)| !(consumer_types::assignment_set(lists[a]).contains(p) && consumer_types::assignment_set(lists[b]).contains(p)) by {
        if consumer_types::assignment_set(lists[a]).contains(p) && consumer_types::assignment_set(lists[b]).contains(p) {
            assert(consumer_laws::holds(hands[a], p));
            assert(consumer_laws::holds(hands[b], p));
            if by_range {
                let i = choose|i: int| 0 <= i < topics.len() && (#[trigger] topics[i]).id == p.0 && consumer_assignor::range_gives(topics[i], subs, a, p.1);
                let j = choose|j: int| 0 <= j < topics.len() && (#[trigger] topics[j]).id == p.0 && consumer_assignor::range_gives(topics[j], subs, b, p.1);
                assert(i == j) by {
                    if i < j {
                        assert(topics[i].id != topics[j].id);
                    } else if j < i {
                        assert(topics[j].id != topics[i].id);
                    }
                }
                range_partitions_exist(topics[i], subs, a, p.1);
                consumer_laws::range_gives_each_partition_once(topics[i], subs, p.1);
            }
        }
    }
}

/// Whether assignments can be computed over these topics: they are as a store lists them.
pub open spec fn listed(topics: Seq<TopicInfoView>) -> bool {
    &&& consumer_assignor::countable(topics)
    &&& consumer_laws::distinct_ids(topics)
    &&& topics.len() <= u64::MAX
}

proof fn retargeting_keeps_sound(group: ConsumerGroupStateView, topics: Seq<TopicInfoView>, changed: bool, now: int)
    requires
        sound(group),
        listed(topics),
        consumer_groups::retargeted(group, topics, changed, now) is Ok,
    ensures
        sound(consumer_groups::retargeted(group, topics, changed, now)->Ok_0),
        consumer_groups::retargeted(group, topics, changed, now)->Ok_0.members.dom() == group.members.dom(),
{
    let g = consumer_heartbeat::bumped(group, changed);
    let after = consumer_groups::retargeted(group, topics, changed, now)->Ok_0;
    if after.members != group.members {
        let cached = if !g.regex_refresh_pending && consumer_groups::has_patterns(g.members) {
            Some(consumer_types::as_keys(consumer_groups::cached_topics(g.members, topics)))
        } else {
            None
        };
        let target = consumer_assignor::targets(g, topics, cached)->Ok_0;
        let subs = consumer_assignor::subscriptions(g.members, topics, cached);
        assert(subs.dom() =~= g.members.dom());
        assert(after.members =~= consumer_groups::with_targets(g, target));
        assert(after.members.dom() =~= group.members.dom());
        assert forall|a: Seq<char>, b: Seq<char>| a != b && #[trigger] after.members.contains_key(a) && #[trigger] after.members.contains_key(b)
            implies apart(after.members[a].target_assignment, after.members[b].target_assignment) by {
            lists_are_apart(g.assignor_name, topics, subs, a, b);
        }
        assert forall|id: Seq<char>| #[trigger] after.members.contains_key(id) implies follows(after.members[id], after.assignment_epoch) by {
            assert(group.members.contains_key(id));
        }
    }
}

proof fn reconciling_keeps_sound(group: ConsumerGroupStateView, member_id: Seq<char>, heartbeat_interval_ms: i32)
    requires
        sound(group),
        group.members.contains_key(member_id),
    ensures
        sound(consumer_reconcile::reconciled(group, member_id, heartbeat_interval_ms).0),
{
    let after = consumer_reconcile::reconciled(group, member_id, heartbeat_interval_ms).0;
    let member = group.members[member_id];
    let next = consumer_reconcile::allowed(group, member_id);
    let target = consumer_types::assignment_set(member.target_assignment);
    consumer_laws::assignments_are_finite(member.target_assignment);
    assert(next.subset_of(target));
    vstd::set_lib::lemma_len_subset(next, target);
    consumer_laws::listed_partitions_are_kept(next, consumer_types::names_in(member.target_assignment));
    assert(after.members.dom() =~= group.members.dom());
    assert forall|a: Seq<char>, b: Seq<char>| a != b && #[trigger] after.members.contains_key(a) && #[trigger] after.members.contains_key(b)
        implies apart(after.members[a].target_assignment, after.members[b].target_assignment) by {
        assert(group.members.contains_key(a) && group.members.contains_key(b));
    }
    assert forall|id: Seq<char>| #[trigger] after.members.contains_key(id) implies follows(after.members[id], after.assignment_epoch) by {
        assert(group.members.contains_key(id));
    }
}

/// Whether no partition is in the target of a member and of one of the others.
pub open spec fn fits_among(members: Map<Seq<char>, ConsumerMemberStateView>, id: Seq<char>, member: ConsumerMemberStateView) -> bool {
    forall|b: Seq<char>| b != id && #[trigger] members.contains_key(b) ==> apart(member.target_assignment, members[b].target_assignment)
}

pub(crate) proof fn seating_keeps_sound(group: ConsumerGroupStateView, id: Seq<char>, member: ConsumerMemberStateView)
    requires
        sound(group),
        fits_among(group.members, id, member),
        follows(member, group.assignment_epoch),
    ensures
        sound(ConsumerGroupStateView { members: group.members.insert(id, member), ..group }),
{
    let members = group.members.insert(id, member);
    assert forall|a: Seq<char>, b: Seq<char>| a != b && #[trigger] members.contains_key(a) && #[trigger] members.contains_key(b)
        implies apart(members[a].target_assignment, members[b].target_assignment) by {
        assert(a != id ==> group.members.contains_key(a));
        assert(b != id ==> group.members.contains_key(b));
    }
    assert forall|x: Seq<char>| #[trigger] members.contains_key(x) implies follows(members[x], group.assignment_epoch) by {
        assert(x != id ==> group.members.contains_key(x));
    }
}

pub(crate) proof fn removing_keeps_sound(group: ConsumerGroupStateView, rest: Map<Seq<char>, ConsumerMemberStateView>)
    requires
        sound(group),
        forall|x: Seq<char>| #[trigger] rest.contains_key(x) ==> group.members.contains_key(x) && rest[x] == group.members[x],
    ensures
        sound(ConsumerGroupStateView { members: rest, ..group }),
{
    assert(rest.dom().subset_of(group.members.dom())) by {
        assert forall|x: Seq<char>| #[trigger] rest.dom().contains(x) implies group.members.dom().contains(x) by {
            assert(rest.contains_key(x));
        }
    }
    vstd::set_lib::lemma_len_subset(rest.dom(), group.members.dom());
}

/// A new group is sound.
pub proof fn new_groups_are_sound(group_id: Seq<char>, assignor: Seq<char>)
    ensures
        sound(consumer_groups::new_group(group_id, assignor)),
{
}

proof fn leaving_keeps_sound(group: ConsumerGroupStateView, request: ConsumerGroupHeartbeatView, topics: Seq<TopicInfoView>, now: int, defer: bool)
    requires
        sound(group),
        listed(topics),
        consumer_heartbeat::leaving(group, request, topics, now, defer) is Ok,
    ensures
        sound(consumer_heartbeat::leaving(group, request, topics, now, defer)->Ok_0.0),
{
    let rest = ConsumerGroupStateView { members: group.members.remove(request.member_id), ..group };
    removing_keeps_sound(group, rest.members);
    let ready = consumer_groups::with_refresh_state(rest, topics, false, request.regex_refresh_interval_ms, now)->Ok_0;
    assert(sound(ready));
    if !defer {
        retargeting_keeps_sound(ready, topics, true, now);
    }
}

proof fn pausing_keeps_sound(group: ConsumerGroupStateView, request: ConsumerGroupHeartbeatView, topics: Seq<TopicInfoView>, now: int, defer: bool)
    requires
        sound(group),
        listed(topics),
        consumer_heartbeat::pausing(group, request, topics, now, defer) is Ok,
    ensures
        sound(consumer_heartbeat::pausing(group, request, topics, now, defer)->Ok_0.0),
{
    if request.instance_id is None {
        leaving_keeps_sound(group, request, topics, now, defer);
    } else {
        let id = consumer_groups::instance_owner(group.members, request.instance_id->0)->0;
        owner_is_member(group.members, request.instance_id->0);
        seating_keeps_sound(group, id, consumer_heartbeat::away(group.members[id]));
    }
}

pub(crate) proof fn seats_are_sound(group: ConsumerGroupStateView, request: ConsumerGroupHeartbeatView, topics: Seq<TopicInfoView>, now: int)
    requires
        sound(group),
        consumer_heartbeat::seat_of(group, request, topics, now) is Ok,
    ensures
        ({
            let seat = consumer_heartbeat::seat_of(group, request, topics, now)->Ok_0;
            &&& sound(seat.group)
            &&& fits_among(seat.group.members, request.member_id, seat.member)
            &&& follows(seat.member, seat.group.assignment_epoch)
        }),
{
    let seat = consumer_heartbeat::seat_of(group, request, topics, now)->Ok_0;
    if request.member_epoch == 0 && request.instance_id is Some {
        owner_is_member(group.members, request.instance_id->0);
    }
    removing_keeps_sound(group, seat.group.members);
}

proof fn seated_beats_keep_sound(
    seat: consumer_groups::Seat,
    request: ConsumerGroupHeartbeatView,
    topics: Seq<TopicInfoView>,
    now: int,
    defer: bool,
    expired: bool,
)
    requires
        sound(seat.group),
        fits_among(seat.group.members, request.member_id, seat.member),
        follows(seat.member, seat.group.assignment_epoch),
        listed(topics),
        consumer_heartbeat::seated_beat(seat, request, topics, now, defer, expired) is Ok,
    ensures
        sound(consumer_heartbeat::seated_beat(seat, request, topics, now, defer, expired)->Ok_0.0),
{
    let member = consumer_groups::with_request(seat.member, request, topics, now);
    let introduced = member.subscribed_topic_regex is Some && !consumer_groups::has_pattern(seat.group.members, member.subscribed_topic_regex->0);
    let full = ConsumerGroupStateView { members: seat.group.members.insert(request.member_id, member), ..seat.group };
    seating_keeps_sound(seat.group, request.member_id, member);
    let refreshed = consumer_groups::with_refresh_state(full, topics, introduced, request.regex_refresh_interval_ms, now)->Ok_0;
    let chosen = if request.server_assignor is Some {
        ConsumerGroupStateView { assignor_name: request.server_assignor->0, ..refreshed }
    } else {
        refreshed
    };
    assert(sound(chosen));
    let triggered = expired || seat.is_new || consumer_groups::metadata_differs(seat.member, member)
        || chosen.assignor_name != refreshed.assignor_name;
    let step = if !seat.replaces_static || triggered || chosen.regex_refresh_pending {
        consumer_heartbeat::assigned(chosen, topics, triggered, now, defer)
    } else {
        Ok((chosen, None))
    };
    if (!seat.replaces_static || triggered || chosen.regex_refresh_pending) && !defer {
        retargeting_keeps_sound(chosen, topics, triggered, now);
    }
    let ready = step->Ok_0.0;
    assert(sound(ready));
    assert(ready.members.dom().contains(request.member_id));
    reconciling_keeps_sound(ready, request.member_id, request.heartbeat_interval_ms);
}

/// Heartbeats keep a group sound: whatever members do, no partition is meant for two of them.
pub proof fn heartbeats_keep_groups_sound(
    state: Option<ConsumerGroupStateView>,
    request: ConsumerGroupHeartbeatView,
    topics: Seq<TopicInfoView>,
    now: int,
    defer: bool,
    fresh: Seq<char>,
)
    requires
        state is Some ==> sound(state->0),
        listed(topics),
        consumer_heartbeat::beat(state, request, topics, now, defer, fresh) is Ok,
    ensures
        sound(consumer_heartbeat::beat(state, request, topics, now, defer, fresh)->Ok_0.0),
{
    let asked = consumer_heartbeat::identified(request, fresh);
    let start = if state is Some {
        state->0
    } else {
        consumer_groups::new_group(request.group_id, request.configured_assignors[0])
    };
    let expired = consumer_groups::some_silent(start, now);
    let g = ConsumerGroupStateView { assignment_interval_ms: request.assignment_interval_ms, ..consumer_groups::without_silent(start, now) };
    removing_keeps_sound(start, g.members);
    assert(sound(g));
    if request.member_epoch == -1 {
        leaving_keeps_sound(g, asked, topics, now, defer);
    } else if request.member_epoch == -2 {
        pausing_keeps_sound(g, asked, topics, now, defer);
    } else {
        seats_are_sound(g, asked, topics, now);
        seated_beats_keep_sound(consumer_heartbeat::seat_of(g, asked, topics, now)->Ok_0, asked, topics, now, defer, expired);
    }
}

proof fn owner_is_member(members: Map<Seq<char>, ConsumerMemberStateView>, instance: Seq<char>)
    requires
        members.dom().finite(),
    ensures
        consumer_groups::instance_owner(members, instance) is Some ==> members.contains_key(consumer_groups::instance_owner(members, instance)->0),
{
    let ids = consumer_groups::ordered(members.dom());
    sorted_map::finite_sets_are_listed::<String>(members.dom());
    first_is_listed(ids, members, instance);
    if consumer_groups::instance_owner(members, instance) is Some {
        assert(ids.to_set().contains(consumer_groups::instance_owner(members, instance)->0));
    }
}

proof fn first_is_listed(ids: Seq<Seq<char>>, members: Map<Seq<char>, ConsumerMemberStateView>, instance: Seq<char>)
    ensures
        consumer_groups::first_with_instance(ids, members, instance) is Some ==> ids.contains(
            consumer_groups::first_with_instance(ids, members, instance)->0,
        ),
    decreases ids.len(),
{
    if ids.len() > 0 {
        first_is_listed(ids.drop_first(), members, instance);
        assert(ids[0] == ids.first());
        assert forall|id: Seq<char>| ids.drop_first().contains(id) implies ids.contains(id) by {
            let i = choose|i: int| 0 <= i < ids.drop_first().len() && ids.drop_first()[i] == id;
            assert(ids[i + 1] == id);
        }
    }
}

/// An assignment that is computed later keeps a group sound.
pub proof fn completions_keep_groups_sound(group: ConsumerGroupStateView, topics: Seq<TopicInfoView>, task: GroupAssignmentTaskView, now: int)
    requires
        sound(group),
        listed(topics),
        consumer_heartbeat::completed(group, topics, task, now) is Ok,
    ensures
        sound(consumer_heartbeat::completed(group, topics, task, now)->Ok_0.0),
{
    if task == consumer_heartbeat::task_for(group) {
        retargeting_keeps_sound(group, topics, false, now);
    }
}

/// No two members that have reached the group's assignment have a partition in common.
pub proof fn settled_members_share_nothing(group: ConsumerGroupStateView, a: Seq<char>, b: Seq<char>)
    requires
        sound(group),
        group.members.contains_key(a),
        group.members.contains_key(b),
        a != b,
        group.members[a].member_epoch == group.assignment_epoch,
        group.members[b].member_epoch == group.assignment_epoch,
    ensures
        apart(group.members[a].current_assignment, group.members[b].current_assignment),
{
    let mine = group.members[a];
    let other = group.members[b];
    assert(apart(mine.target_assignment, other.target_assignment));
    assert forall|p: (u128, i32)| !(consumer_types::assignment_set(mine.current_assignment).contains(p) && consumer_types::assignment_set(
        other.current_assignment,
    ).contains(p)) by {
        assert(follows(mine, group.assignment_epoch) && follows(other, group.assignment_epoch));
        assert(consumer_types::assignment_set(mine.current_assignment).contains(p) ==> consumer_types::assignment_set(mine.target_assignment).contains(p));
        assert(consumer_types::assignment_set(other.current_assignment).contains(p) ==> consumer_types::assignment_set(other.target_assignment).contains(p));
    }
}

/// Whether every consumer group of a store is sound.
pub open spec fn groups_are_sound(s: StoreView) -> bool {
    forall|id: Seq<char>| #[trigger] s.consumer_groups.contains_key(id) ==> sound(s.consumer_groups[id])
}

/// Heartbeats and assignments that are computed later keep every consumer group of a store sound,
/// and touch no group but the one that they are for.
pub proof fn stores_keep_groups_sound(
    s: StoreView,
    request: ConsumerGroupHeartbeatView,
    task: GroupAssignmentTaskView,
    now: int,
    defer: bool,
    fresh: Seq<char>,
    other: Seq<char>,
)
    requires
        groups_are_sound(s),
        listed(topics::listed_topics(s.log, None)),
    ensures
        groups_are_sound(store::consumer_heard(s, request, now, defer, fresh).0),
        groups_are_sound(store::assignment_completed(s, task, now).0),
        other != request.group_id && s.consumer_groups.contains_key(other) ==> store::consumer_heard(
            s,
            request,
            now,
            defer,
            fresh,
        ).0.consumer_groups[other] == s.consumer_groups[other],
        other != task.group_id && s.consumer_groups.contains_key(other) ==> store::assignment_completed(s, task, now).0.consumer_groups[other]
            == s.consumer_groups[other],
{
    let all = topics::listed_topics(s.log, None);
    let known = if s.consumer_groups.contains_key(request.group_id) {
        Some(s.consumer_groups[request.group_id])
    } else {
        None
    };
    if consumer_heartbeat::beat(known, request, all, now, defer, fresh) is Ok {
        heartbeats_keep_groups_sound(known, request, all, now, defer, fresh);
    }
    if s.consumer_groups.contains_key(task.group_id) {
        let group = s.consumer_groups[task.group_id];
        if consumer_heartbeat::completed(group, all, task, now) is Ok {
            completions_keep_groups_sound(group, all, task, now);
        }
    }
    let heard = store::consumer_heard(s, request, now, defer, fresh).0;
    assert forall|id: Seq<char>| #[trigger] heard.consumer_groups.contains_key(id) implies sound(heard.consumer_groups[id]) by {
        if id != request.group_id {
            assert(s.consumer_groups.contains_key(id));
        }
    }
    let done = store::assignment_completed(s, task, now).0;
    assert forall|id: Seq<char>| #[trigger] done.consumer_groups.contains_key(id) implies sound(done.consumer_groups[id]) by {
        if id != task.group_id {
            assert(s.consumer_groups.contains_key(id));
        }
    }
}

} // verus!
