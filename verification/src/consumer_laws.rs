//! What holds of consumer groups whatever their members do.

use crate::consumer_assignor;
use crate::consumer_groups;
use crate::consumer_heartbeat;
use crate::consumer_reconcile;
use crate::consumer_types;
use crate::consumer_types::{
    ConsumerGroupHeartbeatView, ConsumerGroupStateView, ConsumerTopicAssignmentView, GroupAssignmentCompletion,
    GroupAssignmentTaskView,
};
use crate::error::ControlErrorView;
use crate::member_epoch;
use crate::partition::TopicInfoView;
use crate::sorted_map;
use crate::text;
use vstd::prelude::*;

verus! {

/// The partitions in a list of assignments are finitely many.
pub proof fn assignments_are_finite(list: Seq<ConsumerTopicAssignmentView>)
    ensures
        consumer_types::assignment_set(list).finite(),
    decreases list.len(),
{
    let all = consumer_types::assignment_set(list);
    if list.len() == 0 {
        assert(all =~= Set::empty());
    } else {
        let rest = list.drop_last();
        assignments_are_finite(rest);
        let id = list.last().topic_id;
        let here = list.last().partitions.to_set();
        vstd::seq_lib::seq_to_set_is_finite(list.last().partitions);
        let f = |q: i32| (id, q);
        here.lemma_map_finite(f);
        let more = consumer_types::assignment_set(rest).union(here.map(f));
        assert forall|p: (u128, i32)| #[trigger] all.contains(p) implies more.contains(p) by {
            let i = choose|i: int| 0 <= i < list.len() && (#[trigger] list[i]).topic_id == p.0 && list[i].partitions.contains(p.1);
            if i < rest.len() {
                assert(rest[i] == list[i]);
            } else {
                assert(here.contains(p.1));
                assert(f(p.1) == p);
                assert(here.map(f).contains(p));
            }
        }
        vstd::set_lib::lemma_len_subset(all, more);
    }
}

/// A set of partitions listed by topic is the set of partitions of the list.
pub proof fn listed_partitions_are_kept(pairs: Set<(u128, i32)>, names: Map<u128, Seq<char>>)
    requires
        pairs.finite(),
    ensures
        consumer_types::assignment_set(consumer_types::hand_list(consumer_types::grouped(pairs), names)) == pairs,
{
    let hand = consumer_types::grouped(pairs);
    let list = consumer_types::hand_list(hand, names);
    let ids = sorted_map::sorted_keys::<u128>(hand.dom());
    let topic = |p: (u128, i32)| p.0;
    pairs.lemma_map_finite(topic);
    assert(hand.dom() =~= pairs.map(topic)) by {
        assert forall|id: u128| hand.dom().contains(id) == pairs.map(topic).contains(id) by {
            if hand.dom().contains(id) {
                let q = choose|q: i32| pairs.contains((id, q));
                assert(topic((id, q)) == id);
            }
            if pairs.map(topic).contains(id) {
                let p = choose|p: (u128, i32)| pairs.contains(p) && topic(p) == id;
                assert(pairs.contains((id, p.1)));
            }
        }
    }
    sorted_map::finite_sets_are_listed::<u128>(hand.dom());
    assert forall|id: u128| #[trigger] hand.dom().contains(id)
        implies sorted_map::lists_in_order::<i32>(sorted_map::sorted_keys::<i32>(hand[id].dom()), hand[id].dom()) by {
        let index = |p: (u128, i32)| p.1;
        pairs.lemma_map_finite(index);
        assert forall|q: i32| #[trigger] hand[id].dom().contains(q) implies pairs.map(index).contains(q) by {
            assert(pairs.contains((id, q)));
            assert(index((id, q)) == q);
        }
        vstd::set_lib::lemma_len_subset(hand[id].dom(), pairs.map(index));
        sorted_map::finite_sets_are_listed::<i32>(hand[id].dom());
    }
    let all = consumer_types::assignment_set(list);
    assert forall|p: (u128, i32)| all.contains(p) == pairs.contains(p) by {
        if pairs.contains(p) {
            assert(pairs.contains((p.0, p.1)));
            assert(hand.dom().contains(p.0));
            assert(ids.to_set().contains(p.0));
            assert(ids.contains(p.0));
            let i = choose|i: int| 0 <= i < ids.len() && ids[i] == p.0;
            assert(hand[p.0].dom().contains(p.1));
            let partitions = sorted_map::sorted_keys::<i32>(hand[p.0].dom());
            assert(partitions.to_set().contains(p.1));
            assert(partitions.contains(p.1));
            assert(list[i].topic_id == p.0 && list[i].partitions == partitions);
        }
        if all.contains(p) {
            let i = choose|i: int| 0 <= i < list.len() && (#[trigger] list[i]).topic_id == p.0 && list[i].partitions.contains(p.1);
            assert(ids.contains(ids[i]));
            assert(ids.to_set().contains(ids[i]));
            assert(hand.dom().contains(p.0));
            let partitions = sorted_map::sorted_keys::<i32>(hand[p.0].dom());
            assert(partitions.to_set().contains(p.1));
            assert(hand[p.0].dom().contains(p.1));
        }
    }
    assert(all =~= pairs);
}

/// A member is given a partition only if it is in the member's target, and only if the member owns
/// it already or no other member does: a partition moves after its old owner has given it up.
pub proof fn partitions_move_only_when_free(group: ConsumerGroupStateView, member_id: Seq<char>, heartbeat_interval_ms: i32, p: (u128, i32))
    requires
        group.members.contains_key(member_id),
    ensures
        ({
            let after = consumer_reconcile::reconciled(group, member_id, heartbeat_interval_ms).0;
            let member = group.members[member_id];
            consumer_types::assignment_set(after.members[member_id].current_assignment).contains(p) ==> {
                &&& consumer_types::assignment_set(member.target_assignment).contains(p)
                &&& consumer_types::assignment_set(member.owned_assignment).contains(p) || !consumer_reconcile::owned_by_others(
                    group.members,
                    member_id,
                ).contains(p)
            }
        }),
{
    let member = group.members[member_id];
    let next = consumer_reconcile::allowed(group, member_id);
    let target = consumer_types::assignment_set(member.target_assignment);
    assignments_are_finite(member.target_assignment);
    assert(next.subset_of(target));
    vstd::set_lib::lemma_len_subset(next, target);
    listed_partitions_are_kept(next, consumer_types::names_in(member.target_assignment));
}

/// While a member has partitions to give up it stays in its epoch and keeps only partitions that it
/// owns; otherwise it moves to the group's assignment epoch.
pub proof fn members_move_on_after_giving_up(group: ConsumerGroupStateView, member_id: Seq<char>, heartbeat_interval_ms: i32)
    requires
        group.members.contains_key(member_id),
    ensures
        ({
            let (after, result) = consumer_reconcile::reconciled(group, member_id, heartbeat_interval_ms);
            let member = group.members[member_id];
            let then = after.members[member_id];
            &&& result.member_epoch == then.member_epoch
            &&& consumer_reconcile::revoking(member) ==> then.member_epoch == member.member_epoch && consumer_types::assignment_set(
                then.current_assignment,
            ).subset_of(consumer_types::assignment_set(member.owned_assignment))
            &&& !consumer_reconcile::revoking(member) ==> then.member_epoch == group.assignment_epoch
        }),
{
    let member = group.members[member_id];
    let next = consumer_reconcile::allowed(group, member_id);
    let target = consumer_types::assignment_set(member.target_assignment);
    assignments_are_finite(member.target_assignment);
    assert(next.subset_of(target));
    vstd::set_lib::lemma_len_subset(next, target);
    listed_partitions_are_kept(next, consumer_types::names_in(member.target_assignment));
}

/// A known member that sends an epoch which is neither its current one nor a previous one from which
/// it may recover is turned away.
pub proof fn stale_epochs_are_fenced(
    group: ConsumerGroupStateView,
    request: ConsumerGroupHeartbeatView,
    topics: Seq<TopicInfoView>,
    now: int,
    defer: bool,
    fresh: Seq<char>,
)
    requires
        consumer_groups::request_error(request) is None,
        request.member_id.len() > 0,
        request.member_epoch > 0,
        group.members.contains_key(request.member_id),
        !consumer_groups::silent(group.members[request.member_id], now),
        ({
            let member = group.members[request.member_id];
            !member_epoch::admits(
                member.member_epoch,
                member.previous_member_epoch,
                request.member_epoch,
                consumer_heartbeat::may_recover(member, request),
            )
        }),
    ensures
        consumer_heartbeat::beat(Some(group), request, topics, now, defer, fresh) == Err::<
            (ConsumerGroupStateView, consumer_types::ConsumerGroupHeartbeatResultView, Option<GroupAssignmentTaskView>),
            ControlErrorView,
        >(
            ControlErrorView::FencedMemberEpoch {
                group: request.group_id,
                member: request.member_id,
                expected: group.members[request.member_id].member_epoch,
                actual: request.member_epoch,
            },
        ),
{
}

/// An assignment that was computed for a state which the group has left behind changes nothing.
pub proof fn stale_tasks_change_nothing(group: ConsumerGroupStateView, topics: Seq<TopicInfoView>, task: GroupAssignmentTaskView, now: int)
    requires
        task != consumer_heartbeat::task_for(group),
    ensures
        consumer_heartbeat::completed(group, topics, task, now) == Ok::<(ConsumerGroupStateView, GroupAssignmentCompletion), ControlErrorView>(
            (group, GroupAssignmentCompletion::Stale),
        ),
{
}

/// Whether the assignment of a group is not ahead of the group.
pub open spec fn epochs_in_order(group: ConsumerGroupStateView) -> bool {
    group.assignment_epoch <= group.group_epoch
}

proof fn retargeting_moves_epochs_on(group: ConsumerGroupStateView, topics: Seq<TopicInfoView>, changed: bool, now: int)
    requires
        epochs_in_order(group),
        consumer_groups::retargeted(group, topics, changed, now) is Ok,
    ensures
        ({
            let after = consumer_groups::retargeted(group, topics, changed, now)->Ok_0;
            epochs_in_order(after) && group.group_epoch <= after.group_epoch && group.assignment_epoch <= after.assignment_epoch
        }),
{
}

/// Heartbeats never set the epochs of a group back, and its assignment is never ahead of it.
pub proof fn epochs_only_grow(
    group: ConsumerGroupStateView,
    request: ConsumerGroupHeartbeatView,
    topics: Seq<TopicInfoView>,
    now: int,
    defer: bool,
    fresh: Seq<char>,
)
    requires
        epochs_in_order(group),
        consumer_heartbeat::beat(Some(group), request, topics, now, defer, fresh) is Ok,
    ensures
        ({
            let after = consumer_heartbeat::beat(Some(group), request, topics, now, defer, fresh)->Ok_0.0;
            epochs_in_order(after) && group.group_epoch <= after.group_epoch && group.assignment_epoch <= after.assignment_epoch
        }),
{
    let asked = consumer_heartbeat::identified(request, fresh);
    let g = ConsumerGroupStateView { assignment_interval_ms: request.assignment_interval_ms, ..consumer_groups::without_silent(group, now) };
    let expired = consumer_groups::some_silent(group, now);
    if request.member_epoch == -1 || (request.member_epoch == -2 && asked.instance_id is None) {
        let rest = ConsumerGroupStateView { members: g.members.remove(asked.member_id), ..g };
        let ready = consumer_groups::with_refresh_state(rest, topics, false, request.regex_refresh_interval_ms, now);
        if !defer {
            retargeting_moves_epochs_on(ready->Ok_0, topics, true, now);
        }
    } else if request.member_epoch != -2 {
        let seat = consumer_heartbeat::seat_of(g, asked, topics, now)->Ok_0;
        let member = consumer_groups::with_request(seat.member, asked, topics, now);
        let introduced = member.subscribed_topic_regex is Some && !consumer_groups::has_pattern(seat.group.members, member.subscribed_topic_regex->0);
        let full = ConsumerGroupStateView { members: seat.group.members.insert(asked.member_id, member), ..seat.group };
        let refreshed = consumer_groups::with_refresh_state(full, topics, introduced, request.regex_refresh_interval_ms, now)->Ok_0;
        let chosen = if request.server_assignor is Some {
            ConsumerGroupStateView { assignor_name: request.server_assignor->0, ..refreshed }
        } else {
            refreshed
        };
        let triggered = expired || seat.is_new || consumer_groups::metadata_differs(seat.member, member)
            || chosen.assignor_name != refreshed.assignor_name;
        if (!seat.replaces_static || triggered || chosen.regex_refresh_pending) && !defer {
            retargeting_moves_epochs_on(chosen, topics, triggered, now);
        }
    }
}

proof fn ranges_grow(n: int, k: int, i: int, j: int)
    requires
        0 <= n,
        0 < k,
        0 <= i <= j <= k,
    ensures
        range_start_of(n, k, i) <= range_start_of(n, k, j),
    decreases j - i,
{
    if i < j {
        consumer_assignor::range_bounds(n, k, j - 1);
        ranges_grow(n, k, i, j - 1);
    }
}

spec fn range_start_of(n: int, k: int, i: int) -> int {
    consumer_assignor::range_start(n, k, i)
}

proof fn range_holder(n: int, k: int, i: int, p: int) -> (holder: int)
    requires
        0 <= p < n,
        0 < k,
        0 <= i <= k,
        p < range_start_of(n, k, i),
    ensures
        0 <= holder < i,
        consumer_assignor::in_range(n, k, holder, p),
    decreases i,
{
    consumer_assignor::range_bounds(n, k, 0);
    if p < range_start_of(n, k, i - 1) {
        range_holder(n, k, i - 1, p)
    } else {
        i - 1
    }
}

/// The range assignor gives every partition of a topic with subscribers to exactly one of them.
pub proof fn range_gives_each_partition_once(topic: TopicInfoView, subs: Map<Seq<char>, Map<u128, ()>>, p: i32)
    requires
        subs.dom().finite(),
        0 <= p < topic.partitions,
        consumer_assignor::subscriber_set(subs, topic.id).len() > 0,
    ensures
        exists|m: Seq<char>| consumer_assignor::range_gives(topic, subs, m, p),
        forall|a: Seq<char>, b: Seq<char>|
            consumer_assignor::range_gives(topic, subs, a, p) && consumer_assignor::range_gives(topic, subs, b, p) ==> a == b,
        forall|m: Seq<char>| consumer_assignor::range_gives(topic, subs, m, p) ==> subs.contains_key(m) && subs[m].contains_key(topic.id),
{
    consumer_assignor::subscriber_lists(subs);
    let order = consumer_assignor::subscribers(subs, topic.id);
    let k = order.len() as int;
    let n = topic.partitions as int;
    sorted_map::strictly_sorted_unique::<String>(order);
    assert(order.to_set().len() == order.len());
    consumer_assignor::range_bounds(n, k, k);
    let i = range_holder(n, k, k, p as int);
    assert(order.contains(order[i]));
    assert(order.index_of(order[i]) == i);
    assert(consumer_assignor::range_gives(topic, subs, order[i], p));
    assert forall|a: Seq<char>, b: Seq<char>| consumer_assignor::range_gives(topic, subs, a, p)
        && consumer_assignor::range_gives(topic, subs, b, p) implies a == b by {
        let x = order.index_of(a);
        let y = order.index_of(b);
        if x < y {
            ranges_grow(n, k, x + 1, y);
        } else if y < x {
            ranges_grow(n, k, y + 1, x);
        }
    }
    assert forall|m: Seq<char>| consumer_assignor::range_gives(topic, subs, m, p) implies subs.contains_key(m) && subs[m].contains_key(topic.id) by {
        assert(order.to_set().contains(m));
    }
}

/// Whether a hand holds a partition.
pub open spec fn holds(hand: Map<u128, Map<i32, ()>>, q: (u128, i32)) -> bool {
    hand.contains_key(q.0) && hand[q.0].contains_key(q.1)
}

/// The partitions of a hand.
pub open spec fn held(hand: Map<u128, Map<i32, ()>>) -> Set<(u128, i32)> {
    Set::new(|q: (u128, i32)| holds(hand, q))
}

/// Whether no two topics have the same id.
pub open spec fn distinct_ids(topics: Seq<TopicInfoView>) -> bool {
    forall|i: int, j: int| 0 <= i < j < topics.len() ==> (#[trigger] topics[i]).id != (#[trigger] topics[j]).id
}

pub(crate) proof fn dealing_gives_once(subs: Map<Seq<char>, Map<u128, ()>>, turns: Seq<(u128, i32)>)
    requires
        subs.dom().finite(),
        turns.no_duplicates(),
        turns.len() <= u128::MAX,
    ensures
        ({
            let deal = consumer_assignor::dealt(subs, turns);
            &&& deal.hands.dom() == subs.dom()
            &&& deal.loads.dom() == subs.dom()
            &&& forall|m: Seq<char>, q: (u128, i32)| #![trigger holds(deal.hands[m], q)] subs.contains_key(m) && holds(deal.hands[m], q)
                ==> turns.contains(q) && subs[m].contains_key(q.0)
            &&& forall|q: (u128, i32)| #[trigger] turns.contains(q) && consumer_assignor::subscriber_set(subs, q.0).len() > 0
                ==> exists|m: Seq<char>| subs.contains_key(m) && #[trigger] holds(deal.hands[m], q)
            &&& forall|a: Seq<char>, b: Seq<char>, q: (u128, i32)| #![trigger holds(deal.hands[a], q), holds(deal.hands[b], q)] subs.contains_key(a) && subs.contains_key(b) && holds(deal.hands[a], q) && holds(deal.hands[b], q) ==> a == b
            &&& forall|m: Seq<char>| #[trigger] subs.contains_key(m) ==> held(deal.hands[m]).finite() && held(deal.hands[m]).len() == deal.loads[m]
            &&& forall|m: Seq<char>| #[trigger] subs.contains_key(m) ==> deal.loads[m] <= turns.len()
        }),
    decreases turns.len(),
{
    consumer_assignor::subscriber_lists(subs);
    consumer_assignor::deals_keep_members(subs, turns);
    let deal = consumer_assignor::dealt(subs, turns);
    if turns.len() == 0 {
        assert forall|m: Seq<char>| #[trigger] subs.contains_key(m) implies held(deal.hands[m]).finite()
            && held(deal.hands[m]).len() == deal.loads[m] by {
            assert(held(deal.hands[m]) =~= Set::empty());
        }
    } else {
        let rest = turns.drop_last();
        let before = consumer_assignor::dealt(subs, rest);
        let turn = turns.last();
        assert(rest.no_duplicates());
        dealing_gives_once(subs, rest);
        assert(!rest.contains(turn)) by {
            if rest.contains(turn) {
                let j = choose|j: int| 0 <= j < rest.len() && rest[j] == turn;
                assert(turns[j] == turns[turns.len() - 1]);
            }
        }
        assert forall|q: (u128, i32)| turns.contains(q) == (rest.contains(q) || q == turn) by {
            if rest.contains(q) {
                let j = choose|j: int| 0 <= j < rest.len() && rest[j] == q;
                assert(turns[j] == q);
            }
            if turns.contains(q) {
                let j = choose|j: int| 0 <= j < turns.len() && turns[j] == q;
                if j < rest.len() {
                    assert(rest[j] == q);
                }
            }
            assert(turns[turns.len() - 1] == turn);
        }
        let order = consumer_assignor::subscribers(subs, turn.0);
        sorted_map::strictly_sorted_unique::<String>(order);
        consumer_assignor::least_loaded_is_member(order, before.loads);
        match consumer_assignor::least_loaded(order, before.loads) {
            None => {
                assert(consumer_assignor::subscriber_set(subs, turn.0).len() == 0);
            },
            Some(m) => {
                assert(order.to_set().contains(m));
                let had = before.hands[m];
                let has = deal.hands[m];
                assert forall|q: (u128, i32)| holds(has, q) == (holds(had, q) || q == turn) by {}
                assert(!holds(had, turn));
                assert(held(has) =~= held(had).insert(turn));
                assert forall|x: Seq<char>| subs.contains_key(x) && x != m implies deal.hands[x] == before.hands[x]
                    && deal.loads[x] == before.loads[x] by {}
                assert forall|q: (u128, i32)| #[trigger] turns.contains(q) && consumer_assignor::subscriber_set(subs, q.0).len() > 0
                    implies exists|x: Seq<char>| subs.contains_key(x) && #[trigger] holds(deal.hands[x], q) by {
                    if q == turn {
                        assert(holds(deal.hands[m], q));
                    } else {
                        assert(rest.contains(q));
                        let x = choose|x: Seq<char>| subs.contains_key(x) && #[trigger] holds(before.hands[x], q);
                        assert(holds(deal.hands[x], q));
                    }
                }
                assert forall|a: Seq<char>, b: Seq<char>, q: (u128, i32)| #![trigger holds(deal.hands[a], q), holds(deal.hands[b], q)] subs.contains_key(a) && subs.contains_key(b) && holds(deal.hands[a], q) && holds(deal.hands[b], q) implies a == b by {
                    if q != turn {
                        assert(holds(before.hands[a], q));
                        assert(holds(before.hands[b], q));
                    } else {
                        if a != m {
                            assert(holds(before.hands[a], q));
                        }
                        if b != m {
                            assert(holds(before.hands[b], q));
                        }
                    }
                }
                assert forall|x: Seq<char>, q: (u128, i32)| #![trigger holds(deal.hands[x], q)] subs.contains_key(x)
                    && holds(deal.hands[x], q) implies turns.contains(q) && subs[x].contains_key(q.0) by {
                    if x != m || q != turn {
                        assert(holds(before.hands[x], q));
                    }
                }
            },
        }
    }
}

proof fn putting_keeps_topics(sorted: Seq<TopicInfoView>, topic: TopicInfoView)
    ensures
        consumer_assignor::put_topic(sorted, topic).len() == sorted.len() + 1,
        forall|t: TopicInfoView| #[trigger] consumer_assignor::put_topic(sorted, topic).contains(t) <==> sorted.contains(t) || t == topic,
        distinct_ids(sorted) && (forall|i: int| 0 <= i < sorted.len() ==> (#[trigger] sorted[i]).id != topic.id)
            ==> distinct_ids(consumer_assignor::put_topic(sorted, topic)),
    decreases sorted.len(),
{
    let put = consumer_assignor::put_topic(sorted, topic);
    if sorted.len() == 0 || !text::text_before(topic.name, sorted.last().name) {
        assert forall|t: TopicInfoView| #[trigger] put.contains(t) <==> sorted.contains(t) || t == topic by {
            if sorted.contains(t) {
                let i = choose|i: int| 0 <= i < sorted.len() && sorted[i] == t;
                assert(put[i] == t);
            }
            if t == topic {
                assert(put[sorted.len() as int] == t);
            }
        }
    } else {
        let rest = sorted.drop_last();
        putting_keeps_topics(rest, topic);
        let inner = consumer_assignor::put_topic(rest, topic);
        assert(put == inner.push(sorted.last()));
        assert forall|t: TopicInfoView| #[trigger] put.contains(t) <==> sorted.contains(t) || t == topic by {
            if put.contains(t) {
                let i = choose|i: int| 0 <= i < put.len() && put[i] == t;
                if i < inner.len() {
                    assert(inner[i] == t);
                    assert(inner.contains(t));
                    if rest.contains(t) {
                        let j = choose|j: int| 0 <= j < rest.len() && rest[j] == t;
                        assert(sorted[j] == t);
                    }
                } else {
                    assert(sorted[sorted.len() - 1] == t);
                }
            }
            if sorted.contains(t) {
                let i = choose|i: int| 0 <= i < sorted.len() && sorted[i] == t;
                if i < rest.len() {
                    assert(rest[i] == t);
                    assert(inner.contains(t));
                    let j = choose|j: int| 0 <= j < inner.len() && inner[j] == t;
                    assert(put[j] == t);
                } else {
                    assert(put[inner.len() as int] == t);
                }
            }
            if t == topic {
                assert(inner.contains(t));
                let j = choose|j: int| 0 <= j < inner.len() && inner[j] == t;
                assert(put[j] == t);
            }
        }
        if distinct_ids(sorted) && (forall|i: int| 0 <= i < sorted.len() ==> (#[trigger] sorted[i]).id != topic.id) {
            assert forall|i: int, j: int| 0 <= i < j < rest.len() implies (#[trigger] rest[i]).id != (#[trigger] rest[j]).id by {
                assert(sorted[i].id != sorted[j].id);
            }
            assert forall|i: int| 0 <= i < rest.len() implies (#[trigger] rest[i]).id != topic.id by {
                assert(sorted[i].id != topic.id);
            }
            assert(distinct_ids(inner));
            assert forall|i: int, j: int| 0 <= i < j < put.len() implies (#[trigger] put[i]).id != (#[trigger] put[j]).id by {
                if j == inner.len() {
                    assert(inner.contains(put[i]));
                    if rest.contains(put[i]) {
                        let x = choose|x: int| 0 <= x < rest.len() && rest[x] == put[i];
                        assert(sorted[x].id != sorted[sorted.len() - 1].id);
                    } else {
                        assert(sorted[sorted.len() - 1].id != topic.id);
                    }
                } else {
                    assert(inner[i].id != inner[j].id);
                }
            }
        }
    }
}

pub(crate) proof fn sorting_keeps_topics(topics: Seq<TopicInfoView>)
    ensures
        forall|t: TopicInfoView| #[trigger] consumer_assignor::by_name(topics).contains(t) <==> topics.contains(t),
        distinct_ids(topics) ==> distinct_ids(consumer_assignor::by_name(topics)),
    decreases topics.len(),
{
    if topics.len() > 0 {
        let rest = topics.drop_last();
        let last = topics.last();
        sorting_keeps_topics(rest);
        let sorted = consumer_assignor::by_name(rest);
        putting_keeps_topics(sorted, last);
        assert forall|t: TopicInfoView| #[trigger] consumer_assignor::by_name(topics).contains(t) <==> topics.contains(t) by {
            if rest.contains(t) {
                let i = choose|i: int| 0 <= i < rest.len() && rest[i] == t;
                assert(topics[i] == t);
            }
            if topics.contains(t) {
                let i = choose|i: int| 0 <= i < topics.len() && topics[i] == t;
                if i < rest.len() {
                    assert(rest[i] == t);
                }
            }
            assert(topics[topics.len() - 1] == last);
        }
        if distinct_ids(topics) {
            assert forall|i: int, j: int| 0 <= i < j < rest.len() implies (#[trigger] rest[i]).id != (#[trigger] rest[j]).id by {
                assert(topics[i].id != topics[j].id);
            }
            assert forall|i: int| 0 <= i < sorted.len() implies (#[trigger] sorted[i]).id != last.id by {
                assert(sorted.contains(sorted[i]));
                let x = choose|x: int| 0 <= x < rest.len() && rest[x] == sorted[i];
                assert(topics[x].id != topics[topics.len() - 1].id);
            }
        }
    }
}

pub(crate) proof fn turns_are_partitions(topics: Seq<TopicInfoView>)
    requires
        distinct_ids(topics),
    ensures
        consumer_assignor::turns(topics).no_duplicates(),
        forall|q: (u128, i32)| #[trigger] consumer_assignor::turns(topics).contains(q) <==> exists|i: int| 0 <= i < topics.len()
            && (#[trigger] topics[i]).id == q.0 && 0 <= q.1 < topics[i].partitions,
        consumer_assignor::turns(topics).len() <= topics.len() * 0x8000_0000,
    decreases topics.len(),
{
    let all = consumer_assignor::turns(topics);
    if topics.len() > 0 {
        let rest = topics.drop_last();
        let last = topics.last();
        assert forall|i: int, j: int| 0 <= i < j < rest.len() implies (#[trigger] rest[i]).id != (#[trigger] rest[j]).id by {
            assert(topics[i].id != topics[j].id);
        }
        turns_are_partitions(rest);
        let before = consumer_assignor::turns(rest);
        let n: nat = (if last.partitions > 0 { last.partitions } else { 0 }) as nat;
        let more = consumer_assignor::topic_turns(last.id, n);
        assert(all == before + more);
        assert forall|q: (u128, i32)| #[trigger] all.contains(q) <==> exists|i: int| 0 <= i < topics.len()
            && (#[trigger] topics[i]).id == q.0 && 0 <= q.1 < topics[i].partitions by {
            if all.contains(q) {
                let x = choose|x: int| 0 <= x < all.len() && all[x] == q;
                if x < before.len() {
                    assert(before[x] == q);
                    assert(before.contains(q));
                    let i = choose|i: int| 0 <= i < rest.len() && (#[trigger] rest[i]).id == q.0 && 0 <= q.1 < rest[i].partitions;
                    assert(topics[i].id == q.0);
                } else {
                    assert(more[x - before.len()] == q);
                    assert(topics[topics.len() - 1].id == q.0);
                }
            }
            if exists|i: int| 0 <= i < topics.len() && (#[trigger] topics[i]).id == q.0 && 0 <= q.1 < topics[i].partitions {
                let i = choose|i: int| 0 <= i < topics.len() && (#[trigger] topics[i]).id == q.0 && 0 <= q.1 < topics[i].partitions;
                if i < rest.len() {
                    assert(rest[i].id == q.0);
                    assert(before.contains(q));
                    let x = choose|x: int| 0 <= x < before.len() && before[x] == q;
                    assert(all[x] == q);
                } else {
                    assert(more[q.1 as int] == q);
                    assert(all[before.len() + q.1] == q);
                }
            }
        }
        assert forall|x: int, y: int| 0 <= x < y < all.len() implies all[x] != all[y] by {
            if y < before.len() {
                assert(before[x] != before[y]);
            } else if x < before.len() {
                assert(before.contains(before[x]));
                let i = choose|i: int| 0 <= i < rest.len() && (#[trigger] rest[i]).id == before[x].0 && 0 <= before[x].1 < rest[i].partitions;
                assert(topics[i].id != topics[topics.len() - 1].id);
                assert(all[y] == more[y - before.len()]);
            } else {
                assert(all[x] == more[x - before.len()]);
                assert(all[y] == more[y - before.len()]);
            }
        }
        assert(topics.len() * 0x8000_0000 == rest.len() * 0x8000_0000 + 0x8000_0000);
    }
}

/// The uniform assignor gives every partition of a topic with subscribers to exactly one of them,
/// and no member anything else.
pub proof fn uniform_gives_each_partition_once(topics: Seq<TopicInfoView>, subs: Map<Seq<char>, Map<u128, ()>>, i: int, p: i32)
    requires
        subs.dom().finite(),
        distinct_ids(topics),
        topics.len() <= u64::MAX,
        0 <= i < topics.len(),
        0 <= p < topics[i].partitions,
        consumer_assignor::subscriber_set(subs, topics[i].id).len() > 0,
    ensures
        ({
            let hands = consumer_assignor::uniform_hands(topics, subs);
            let q = (topics[i].id, p);
            &&& exists|m: Seq<char>| subs.contains_key(m) && #[trigger] holds(hands[m], q)
            &&& forall|a: Seq<char>, b: Seq<char>|
                #![trigger holds(hands[a], q), holds(hands[b], q)]
                subs.contains_key(a) && subs.contains_key(b) && holds(hands[a], q) && holds(hands[b], q) ==> a == b
            &&& forall|m: Seq<char>| subs.contains_key(m) && #[trigger] holds(hands[m], q) ==> subs[m].contains_key(topics[i].id)
        }),
{
    let sorted = consumer_assignor::by_name(topics);
    sorting_keeps_topics(topics);
    turns_are_partitions(sorted);
    assert(sorted.len() <= u64::MAX) by {
        sorted_length(topics);
    }
    let turns = consumer_assignor::turns(sorted);
    dealing_gives_once(subs, turns);
    let q = (topics[i].id, p);
    assert(topics.contains(topics[i]));
    assert(sorted.contains(topics[i]));
    let j = choose|j: int| 0 <= j < sorted.len() && sorted[j] == topics[i];
    assert(sorted[j].id == q.0);
    assert(turns.contains(q));
    let hands = consumer_assignor::uniform_hands(topics, subs);
    assert(hands == consumer_assignor::dealt(subs, turns).hands);
    assert(exists|m: Seq<char>| subs.contains_key(m) && #[trigger] holds(hands[m], q));
    assert forall|m: Seq<char>| subs.contains_key(m) && #[trigger] holds(hands[m], q) implies subs[m].contains_key(topics[i].id) by {}
    assert forall|a: Seq<char>, b: Seq<char>| #![trigger holds(hands[a], q), holds(hands[b], q)] subs.contains_key(a)
        && subs.contains_key(b) && holds(hands[a], q) && holds(hands[b], q) implies a == b by {}
}

pub(crate) proof fn sorted_length(topics: Seq<TopicInfoView>)
    ensures
        consumer_assignor::by_name(topics).len() == topics.len(),
    decreases topics.len(),
{
    if topics.len() > 0 {
        sorted_length(topics.drop_last());
        putting_keeps_topics(consumer_assignor::by_name(topics.drop_last()), topics.last());
    }
}

/// Whether all members subscribe to the same topics.
pub open spec fn alike(subs: Map<Seq<char>, Map<u128, ()>>) -> bool {
    forall|a: Seq<char>, b: Seq<char>| #![trigger subs.contains_key(a), subs.contains_key(b)] subs.contains_key(a)
        && subs.contains_key(b) ==> subs[a] == subs[b]
}

proof fn least_loaded_is_least(order: Seq<Seq<char>>, loads: Map<Seq<char>, u128>, i: int)
    requires
        0 <= i < order.len(),
    ensures
        loads[consumer_assignor::least_loaded(order, loads)->0] <= loads[order[i]],
    decreases order.len(),
{
    let rest = order.drop_last();
    consumer_assignor::least_loaded_is_member(rest, loads);
    if i < rest.len() {
        assert(rest[i] == order[i]);
        least_loaded_is_least(rest, loads, i);
    }
}

proof fn dealing_is_even(subs: Map<Seq<char>, Map<u128, ()>>, turns: Seq<(u128, i32)>, a: Seq<char>, b: Seq<char>)
    requires
        subs.dom().finite(),
        alike(subs),
        turns.len() <= u128::MAX,
        subs.contains_key(a),
        subs.contains_key(b),
    ensures
        consumer_assignor::dealt(subs, turns).loads[a] <= consumer_assignor::dealt(subs, turns).loads[b] + 1,
    decreases turns.len(),
{
    consumer_assignor::subscriber_lists(subs);
    if turns.len() > 0 {
        let rest = turns.drop_last();
        let before = consumer_assignor::dealt(subs, rest);
        consumer_assignor::deals_keep_members(subs, rest);
        dealing_is_even(subs, rest, a, b);
        let turn = turns.last();
        let order = consumer_assignor::subscribers(subs, turn.0);
        consumer_assignor::least_loaded_is_member(order, before.loads);
        if let Some(m) = consumer_assignor::least_loaded(order, before.loads) {
            assert(order.to_set().contains(m));
            assert(subs.contains_key(m) && subs[m].contains_key(turn.0));
            dealing_is_even(subs, rest, a, m);
            assert(subs[b] == subs[m]);
            assert(consumer_assignor::subscriber_set(subs, turn.0).contains(b));
            assert(order.to_set().contains(b));
            assert(order.contains(b));
            let j = choose|j: int| 0 <= j < order.len() && order[j] == b;
            least_loaded_is_least(order, before.loads, j);
        }
    }
}

/// Members that subscribe to the same topics get numbers of partitions from the uniform assignor
/// that differ by at most one.
pub proof fn uniform_is_balanced(topics: Seq<TopicInfoView>, subs: Map<Seq<char>, Map<u128, ()>>, a: Seq<char>, b: Seq<char>)
    requires
        subs.dom().finite(),
        alike(subs),
        distinct_ids(topics),
        topics.len() <= u64::MAX,
        subs.contains_key(a),
        subs.contains_key(b),
    ensures
        held(consumer_assignor::uniform_hands(topics, subs)[a]).len() <= held(consumer_assignor::uniform_hands(topics, subs)[b]).len() + 1,
{
    let sorted = consumer_assignor::by_name(topics);
    sorting_keeps_topics(topics);
    sorted_length(topics);
    turns_are_partitions(sorted);
    let turns = consumer_assignor::turns(sorted);
    dealing_gives_once(subs, turns);
    dealing_is_even(subs, turns, a, b);
}

} // verus!
