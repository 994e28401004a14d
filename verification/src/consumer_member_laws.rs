//! What the members of consumer groups can count on.

use crate::consumer_groups;
use crate::consumer_heartbeat;
use crate::consumer_laws;
use crate::consumer_reconcile;
use crate::consumer_share_laws::{lists, may_assign};
use crate::consumer_types;
use crate::consumer_types::{
    ConsumerGroupHeartbeatView, ConsumerGroupStateView, ConsumerMemberStateView, ConsumerOwnedTopicPartitionsView, ConsumerTopicAssignmentView,
};
use crate::error::ControlErrorView;
use crate::partition::TopicInfoView;
use crate::sorted_map;
use vstd::prelude::*;

verus! {

/// Whether a member was not heard of for longer than its session. One that is away for a while is waited
/// for.
pub open spec fn is_lost(member: ConsumerMemberStateView, now: int) -> bool {
    member.member_epoch != -2 && member.last_heartbeat + member.session_timeout_ms * 1_000_000 < now
}

/// The members before a heartbeat.
pub open spec fn members_before(state: Option<ConsumerGroupStateView>) -> Map<Seq<char>, ConsumerMemberStateView> {
    match state {
        Some(group) => group.members,
        None => Map::empty(),
    }
}

/// The epoch of the group before a heartbeat; a new group starts in the first.
pub open spec fn epoch_before(state: Option<ConsumerGroupStateView>) -> int {
    match state {
        Some(group) => group.group_epoch as int,
        None => 1,
    }
}

/// Whether a member was lost before a heartbeat.
pub open spec fn some_are_lost(state: Option<ConsumerGroupStateView>, now: int) -> bool {
    exists|x: Seq<char>| #[trigger] members_before(state).contains_key(x) && is_lost(members_before(state)[x], now)
}

/// Whether somebody is a member, and not lost.
pub open spec fn is_there(state: Option<ConsumerGroupStateView>, id: Seq<char>, now: int) -> bool {
    members_before(state).contains_key(id) && !is_lost(members_before(state)[id], now)
}

/// The steps of a heartbeat that gives or keeps a seat: the members with the seat taken, and the group
/// with its assignment brought up to date.
struct Steps {
    full: Map<Seq<char>, ConsumerMemberStateView>,
    seated: ConsumerMemberStateView,
    ready: ConsumerGroupStateView,
    triggered: bool,
}

proof fn assignments_change_targets_alone(group: ConsumerGroupStateView, topics: Seq<TopicInfoView>, changed: bool, now: int, defer: bool)
    requires
        group.group_epoch < i32::MAX - 1,
        consumer_heartbeat::assigned(group, topics, changed, now, defer) is Ok,
    ensures
        ({
            let ready = consumer_heartbeat::assigned(group, topics, changed, now, defer)->Ok_0.0;
            &&& ready.members.dom() == group.members.dom()
            &&& forall|x: Seq<char>|
                #[trigger] group.members.contains_key(x) ==> ready.members[x] == (ConsumerMemberStateView {
                    target_assignment: ready.members[x].target_assignment,
                    ..group.members[x]
                })
            &&& changed ==> ready.group_epoch == group.group_epoch + 1
            &&& !changed && defer ==> ready.group_epoch == group.group_epoch
        }),
{
    consumer_heartbeat::assigned_keeps_members(group, topics, changed, now, defer);
}

proof fn the_lost_are_gone(start: ConsumerGroupStateView, now: int)
    requires
        i128::MIN < now <= i128::MAX,
    ensures
        ({
            let rest = consumer_groups::without_silent(start, now);
            let lost = exists|x: Seq<char>| #[trigger] start.members.contains_key(x) && is_lost(start.members[x], now);
            &&& consumer_groups::some_silent(start, now) == lost
            &&& !lost ==> rest.members == start.members
            &&& forall|x: Seq<char>| #[trigger] rest.members.contains_key(x) <==> start.members.contains_key(x) && !is_lost(start.members[x], now)
            &&& forall|x: Seq<char>| #[trigger] rest.members.contains_key(x) ==> rest.members[x] == start.members[x]
        }),
{
    assert forall|member: ConsumerMemberStateView| #[trigger] consumer_groups::silent(member, now) == is_lost(member, now) by {
        assert(member.session_timeout_ms as int * 1_000_000 == member.session_timeout_ms * 1_000_000);
    }
    let rest = consumer_groups::without_silent(start, now);
    let lost = exists|x: Seq<char>| #[trigger] start.members.contains_key(x) && is_lost(start.members[x], now);
    if lost {
        let x = choose|x: Seq<char>| #[trigger] start.members.contains_key(x) && is_lost(start.members[x], now);
        assert(consumer_groups::silent(start.members[x], now));
    } else {
        assert forall|x: Seq<char>| #[trigger] start.members.contains_key(x) implies !consumer_groups::silent(start.members[x], now) by {
            assert(!is_lost(start.members[x], now));
        }
        assert(rest.members =~= start.members);
    }
}

#[verifier::rlimit(40)]
proof fn heartbeats_go_step_by_step(
    state: Option<ConsumerGroupStateView>,
    request: ConsumerGroupHeartbeatView,
    topics: Seq<TopicInfoView>,
    now: int,
    defer: bool,
    fresh: Seq<char>,
) -> (r: Steps)
    requires
        i128::MIN < now <= i128::MAX,
        request.member_epoch >= 0,
        request.member_epoch > 0 || request.instance_id is None,
        epoch_before(state) < i32::MAX - 1,
        consumer_heartbeat::beat(state, request, topics, now, defer, fresh) is Ok,
    ensures
        ({
            let (after, result, task) = consumer_heartbeat::beat(state, request, topics, now, defer, fresh)->Ok_0;
            let asked = consumer_heartbeat::identified(request, fresh);
            let id = asked.member_id;
            let before = members_before(state);
            let reached = consumer_reconcile::reconciled(r.ready, id, request.heartbeat_interval_ms);
            &&& r.full.contains_key(id)
            &&& r.full[id] == consumer_groups::with_request(r.seated, asked, topics, now)
            &&& is_there(state, id, now) ==> r.seated == (ConsumerMemberStateView { member_id: r.seated.member_id, ..before[id] })
            &&& !is_there(state, id, now) ==> request.member_epoch == 0 && r.seated.member_epoch == 0 && r.seated.target_assignment.len() == 0
            &&& request.member_epoch > 0 ==> is_there(state, id, now)
            &&& forall|x: Seq<char>| #[trigger] r.full.contains_key(x) <==> x == id || is_there(state, x, now)
            &&& forall|x: Seq<char>| #[trigger] r.full.contains_key(x) && x != id ==> r.full[x] == before[x]
            &&& r.ready.members.dom() == r.full.dom()
            &&& forall|x: Seq<char>|
                #[trigger] r.full.contains_key(x) ==> r.ready.members[x] == (ConsumerMemberStateView {
                    target_assignment: r.ready.members[x].target_assignment,
                    ..r.full[x]
                })
            &&& after == reached.0
            &&& result == consumer_heartbeat::answer_for(after, asked, reached.1, defer)
            &&& r.triggered <==> some_are_lost(state, now) || !is_there(state, id, now) || consumer_groups::metadata_differs(r.seated, r.full[id])
                || (state is Some && request.server_assignor is Some && request.server_assignor->0 != state->0.assignor_name) || (state is None
                && request.server_assignor is Some && request.server_assignor->0 != request.configured_assignors[0])
            &&& r.triggered ==> r.ready.group_epoch == epoch_before(state) + 1
            &&& !r.triggered && defer ==> r.ready.group_epoch == epoch_before(state)
            &&& !is_there(state, id, now) && !some_are_lost(state, now) ==> before.dom().len() < request.max_size
        }),
{
    let asked = consumer_heartbeat::identified(request, fresh);
    let start = if state is Some {
        state->0
    } else {
        consumer_groups::new_group(request.group_id, request.configured_assignors[0])
    };
    let expired = consumer_groups::some_silent(start, now);
    let g = ConsumerGroupStateView { assignment_interval_ms: request.assignment_interval_ms, ..consumer_groups::without_silent(start, now) };
    assert(start.members =~= members_before(state));
    the_lost_are_gone(start, now);
    let seat = consumer_heartbeat::seat_of(g, asked, topics, now)->Ok_0;
    assert(seat.group == g);
    let member = consumer_groups::with_request(seat.member, asked, topics, now);
    let introduced = member.subscribed_topic_regex is Some && !consumer_groups::has_pattern(seat.group.members, member.subscribed_topic_regex->0);
    let full = ConsumerGroupStateView { members: seat.group.members.insert(asked.member_id, member), ..seat.group };
    let refreshed = consumer_groups::with_refresh_state(full, topics, introduced, request.regex_refresh_interval_ms, now)->Ok_0;
    let chosen = if request.server_assignor is Some {
        ConsumerGroupStateView { assignor_name: request.server_assignor->0, ..refreshed }
    } else {
        refreshed
    };
    let triggered = expired || seat.is_new || consumer_groups::metadata_differs(seat.member, member) || chosen.assignor_name
        != refreshed.assignor_name;
    let ready = consumer_heartbeat::assigned(chosen, topics, triggered, now, defer)->Ok_0.0;
    assignments_change_targets_alone(chosen, topics, triggered, now, defer);
    assert(chosen.members == full.members);
    Steps { full: full.members, seated: seat.member, ready, triggered }
}

/// Whether a member has partitions to give up: it owns some that are not meant for it.
pub open spec fn has_to_give_up(member: ConsumerMemberStateView) -> bool {
    exists|t: u128, p: i32|
        #![trigger lists(member.owned_assignment, t, p)]
        lists(member.owned_assignment, t, p) && !lists(member.target_assignment, t, p)
}

/// Whether another member owns a partition.
pub open spec fn is_owned_elsewhere(members: Map<Seq<char>, ConsumerMemberStateView>, id: Seq<char>, t: u128, p: i32) -> bool {
    exists|x: Seq<char>| #[trigger] members.contains_key(x) && x != id && lists(members[x].owned_assignment, t, p)
}

proof fn lists_are_sets(list: Seq<ConsumerTopicAssignmentView>)
    ensures
        forall|t: u128, p: i32|
            #![trigger lists(list, t, p)]
            #![trigger consumer_types::assignment_set(list).contains((t, p))]
            lists(list, t, p) == consumer_types::assignment_set(list).contains((t, p)),
{
}

/// What a member may read after its heartbeat. While it has partitions to give up, it keeps those that it
/// owns and that are meant for it, and stays in its epoch; then it gets all that is meant for it and that
/// nobody else owns, and enters the epoch of the assignment. It is told so until it owns just that.
pub proof fn members_read_what_is_theirs(
    state: Option<ConsumerGroupStateView>,
    request: ConsumerGroupHeartbeatView,
    topics: Seq<TopicInfoView>,
    now: int,
    defer: bool,
    fresh: Seq<char>,
    t: u128,
    p: i32,
)
    requires
        i128::MIN < now <= i128::MAX,
        request.member_epoch >= 0,
        request.member_epoch > 0 || request.instance_id is None,
        epoch_before(state) < i32::MAX - 1,
        consumer_heartbeat::beat(state, request, topics, now, defer, fresh) is Ok,
    ensures
        ({
            let (after, result, task) = consumer_heartbeat::beat(state, request, topics, now, defer, fresh)->Ok_0;
            let id = result.member_id;
            let member = after.members[id];
            &&& id == if request.member_id.len() == 0 {
                "rutomq-"@ + fresh
            } else {
                request.member_id
            }
            &&& after.members.contains_key(id)
            &&& result.member_epoch == member.member_epoch
            &&& result.heartbeat_interval_ms == request.heartbeat_interval_ms
            &&& has_to_give_up(member) ==> (lists(member.current_assignment, t, p) <==> lists(member.owned_assignment, t, p) && lists(
                member.target_assignment,
                t,
                p,
            ))
            &&& !has_to_give_up(member) ==> (lists(member.current_assignment, t, p) <==> lists(member.target_assignment, t, p)
                && !is_owned_elsewhere(after.members, id, t, p))
            &&& !has_to_give_up(member) ==> member.member_epoch == after.assignment_epoch
            &&& has_to_give_up(member) && is_there(state, id, now) ==> member.member_epoch == members_before(state)[id].member_epoch
            &&& result.assignment is Some ==> result.assignment->0 == member.current_assignment
            &&& result.assignment is None ==> lists(member.owned_assignment, t, p) == lists(member.current_assignment, t, p) && lists(
                member.target_assignment,
                t,
                p,
            ) == lists(member.current_assignment, t, p)
            &&& lists(member.current_assignment, t, p) ==> member.assignment_epochs.contains_key((t, p))
            &&& is_there(state, id, now) && members_before(state)[id].assignment_epochs.contains_key((t, p)) && lists(
                member.current_assignment,
                t,
                p,
            ) ==> member.assignment_epochs[(t, p)] == members_before(state)[id].assignment_epochs[(t, p)]
        }),
{
    let r = heartbeats_go_step_by_step(state, request, topics, now, defer, fresh);
    let id = consumer_heartbeat::identified(request, fresh).member_id;
    assert(r.ready.members.dom().contains(id));
    let m = r.ready.members[id];
    let (after, told) = consumer_reconcile::reconciled(r.ready, id, request.heartbeat_interval_ms);
    let next = consumer_reconcile::allowed(r.ready, id);
    let target = consumer_types::assignment_set(m.target_assignment);
    consumer_laws::assignments_are_finite(m.target_assignment);
    assert(next.subset_of(target));
    vstd::set_lib::lemma_len_subset(next, target);
    consumer_laws::listed_partitions_are_kept(next, consumer_types::names_in(m.target_assignment));
    let member = after.members[id];
    lists_are_sets(m.target_assignment);
    lists_are_sets(m.owned_assignment);
    lists_are_sets(member.current_assignment);
    assert(consumer_reconcile::revoking(m) == has_to_give_up(member)) by {
        if consumer_reconcile::revoking(m) {
            let owned = consumer_types::assignment_set(m.owned_assignment);
            let q = choose|q: (u128, i32)| owned.contains(q) && !target.contains(q);
            assert(owned.contains((q.0, q.1)) && !target.contains((q.0, q.1)));
            assert(lists(member.owned_assignment, q.0, q.1) && !lists(member.target_assignment, q.0, q.1));
        }
        if has_to_give_up(member) {
            let (u, q) = choose|u: u128, q: i32|
                #![trigger lists(member.owned_assignment, u, q)]
                lists(member.owned_assignment, u, q) && !lists(member.target_assignment, u, q);
            assert(consumer_types::assignment_set(m.owned_assignment).contains((u, q)));
        }
    }
    let others = consumer_reconcile::owned_by_others(r.ready.members, id);
    assert(others.contains((t, p)) == is_owned_elsewhere(after.members, id, t, p)) by {
        if others.contains((t, p)) {
            let x = choose|x: Seq<char>|
                #[trigger] r.ready.members.contains_key(x) && x != id && consumer_types::assignment_set(r.ready.members[x].owned_assignment).contains((t, p));
            lists_are_sets(r.ready.members[x].owned_assignment);
            assert(after.members.contains_key(x) && lists(after.members[x].owned_assignment, t, p));
        }
        if is_owned_elsewhere(after.members, id, t, p) {
            let x = choose|x: Seq<char>| #[trigger] after.members.contains_key(x) && x != id && lists(after.members[x].owned_assignment, t, p);
            lists_are_sets(r.ready.members[x].owned_assignment);
            assert(r.ready.members.contains_key(x));
        }
    }
    assert(lists(member.current_assignment, t, p) == next.contains((t, p)));
}

/// What becomes of the others, and of the group, with a heartbeat. Those that were lost are gone, and the
/// rest stay as they are but for what is meant for them. Where somebody comes or is lost, or the member
/// subscribes to something else, or the assignor is another one, the group enters its next epoch.
pub proof fn changes_raise_the_epoch(
    state: Option<ConsumerGroupStateView>,
    request: ConsumerGroupHeartbeatView,
    topics: Seq<TopicInfoView>,
    now: int,
    defer: bool,
    fresh: Seq<char>,
    x: Seq<char>,
)
    requires
        i128::MIN < now <= i128::MAX,
        request.member_epoch >= 0,
        request.member_epoch > 0 || request.instance_id is None,
        epoch_before(state) < i32::MAX - 1,
        consumer_heartbeat::beat(state, request, topics, now, defer, fresh) is Ok,
    ensures
        ({
            let (after, result, task) = consumer_heartbeat::beat(state, request, topics, now, defer, fresh)->Ok_0;
            let id = result.member_id;
            let member = after.members[id];
            let was = members_before(state)[id];
            let assignor = if state is Some {
                state->0.assignor_name
            } else {
                request.configured_assignors[0]
            };
            let other_assignor = request.server_assignor is Some && request.server_assignor->0 != assignor;
            let other_wishes = member.subscribed_topic_names != was.subscribed_topic_names || member.subscribed_topic_regex
                != was.subscribed_topic_regex || member.rack_id != was.rack_id || member.instance_id != was.instance_id
                || member.rebalance_timeout_ms != was.rebalance_timeout_ms;
            let change = some_are_lost(state, now) || !is_there(state, id, now) || other_wishes || other_assignor;
            &&& after.members.contains_key(x) <==> x == id || is_there(state, x, now)
            &&& x != id && is_there(state, x, now) ==> after.members[x] == (ConsumerMemberStateView {
                target_assignment: after.members[x].target_assignment,
                ..members_before(state)[x]
            })
            &&& change ==> after.group_epoch == epoch_before(state) + 1
            &&& !change && defer ==> after.group_epoch == epoch_before(state)
            &&& request.member_epoch > 0 ==> is_there(state, id, now)
            &&& !is_there(state, id, now) && !some_are_lost(state, now) ==> members_before(state).dom().len() < request.max_size
        }),
{
    let r = heartbeats_go_step_by_step(state, request, topics, now, defer, fresh);
    let id = consumer_heartbeat::identified(request, fresh).member_id;
    assert(r.ready.members.dom().contains(x) == r.full.dom().contains(x));
    assert(r.full.dom().contains(x) == r.full.contains_key(x));
    assert(r.full.contains_key(id));
}

proof fn partitions_are_counted(topics: Seq<TopicInfoView>, i: int)
    requires
        consumer_laws::distinct_ids(topics),
        0 <= i < topics.len(),
    ensures
        consumer_groups::partition_count(topics, topics[i].id) == topics[i].partitions,
        consumer_types::names_of(topics).contains_key(topics[i].id),
    decreases topics.len(),
{
    let rest = topics.drop_last();
    if i < topics.len() - 1 {
        assert(topics[i].id != topics[topics.len() - 1].id);
        assert forall|a: int, b: int| 0 <= a < b < rest.len() implies (#[trigger] rest[a]).id != (#[trigger] rest[b]).id by {
            assert(topics[a].id != topics[b].id);
        }
        partitions_are_counted(rest, i);
        assert(rest[i] == topics[i]);
    }
}

proof fn named_topics_exist(topics: Seq<TopicInfoView>, id: u128)
    requires
        consumer_types::names_of(topics).contains_key(id),
    ensures
        exists|i: int| 0 <= i < topics.len() && (#[trigger] topics[i]).id == id,
    decreases topics.len(),
{
    if topics.len() > 0 {
        if topics.last().id == id {
            assert(topics[topics.len() - 1].id == id);
        } else {
            named_topics_exist(topics.drop_last(), id);
            let i = choose|i: int| 0 <= i < topics.drop_last().len() && (#[trigger] topics.drop_last()[i]).id == id;
            assert(topics[i].id == id);
        }
    }
}

/// Whether a member claims a partition that exists.
pub open spec fn claims(owned: Seq<ConsumerOwnedTopicPartitionsView>, topics: Seq<TopicInfoView>, t: u128, p: i32) -> bool {
    &&& exists|i: int| 0 <= i < owned.len() && (#[trigger] owned[i]).topic_id == t && owned[i].partitions.contains(p)
    &&& exists|i: int| 0 <= i < topics.len() && (#[trigger] topics[i]).id == t && 0 <= p < topics[i].partitions
}

proof fn claims_are_kept(owned: Seq<ConsumerOwnedTopicPartitionsView>, topics: Seq<TopicInfoView>, t: u128, p: i32)
    requires
        consumer_laws::distinct_ids(topics),
    ensures
        lists(consumer_groups::normalized(owned, topics), t, p) <==> claims(owned, topics, t, p),
{
    let hand = consumer_groups::owned_hand(owned, topics);
    let names = consumer_types::names_of(topics);
    let list = consumer_types::hand_list(hand, names);
    let all = topics.map_values(|topic: TopicInfoView| topic.id);
    vstd::seq_lib::seq_to_set_is_finite(all);
    assert forall|id: u128| #[trigger] hand.dom().contains(id) implies all.to_set().contains(id) by {
        named_topics_exist(topics, id);
        let i = choose|i: int| 0 <= i < topics.len() && (#[trigger] topics[i]).id == id;
        assert(all[i] == id);
    }
    vstd::set_lib::lemma_len_subset(hand.dom(), all.to_set());
    let numbers = vstd::set_lib::set_int_range(0, 0x8000_0000);
    vstd::set_lib::lemma_int_range(0, 0x8000_0000);
    let narrow = |n: int| n as i32;
    numbers.lemma_map_finite(narrow);
    assert forall|id: u128| #[trigger] hand.contains_key(id) implies hand[id].dom().finite() by {
        assert forall|q: i32| #[trigger] hand[id].dom().contains(q) implies numbers.map(narrow).contains(q) by {
            assert(numbers.contains(q as int));
            assert(narrow(q as int) == q);
        }
        vstd::set_lib::lemma_len_subset(hand[id].dom(), numbers.map(narrow));
    }
    sorted_map::finite_sets_are_listed::<u128>(hand.dom());
    let ids = sorted_map::sorted_keys::<u128>(hand.dom());
    if lists(list, t, p) {
        let j = choose|j: int| 0 <= j < list.len() && (#[trigger] list[j]).topic_id == t && list[j].partitions.contains(p);
        assert(ids.to_set().contains(ids[j]));
        assert(hand.contains_key(t));
        sorted_map::finite_sets_are_listed::<i32>(hand[t].dom());
        assert(sorted_map::sorted_keys::<i32>(hand[t].dom()).to_set().contains(p));
        assert(hand[t].contains_key(p));
        assert(consumer_types::owned_set(owned).contains((t, p)));
        named_topics_exist(topics, t);
        let i = choose|i: int| 0 <= i < topics.len() && (#[trigger] topics[i]).id == t;
        partitions_are_counted(topics, i);
        assert(topics[i].id == t && 0 <= p < topics[i].partitions);
        assert(claims(owned, topics, t, p));
    }
    if claims(owned, topics, t, p) {
        let i = choose|i: int| 0 <= i < topics.len() && (#[trigger] topics[i]).id == t && 0 <= p < topics[i].partitions;
        partitions_are_counted(topics, i);
        let k = choose|k: int| 0 <= k < owned.len() && (#[trigger] owned[k]).topic_id == t && owned[k].partitions.contains(p);
        assert(consumer_groups::mentions(owned, t));
        assert(consumer_types::owned_set(owned).contains((t, p)));
        assert(hand.contains_key(t));
        assert(hand[t].contains_key(p));
        sorted_map::finite_sets_are_listed::<i32>(hand[t].dom());
        assert(ids.to_set().contains(t));
        let j = choose|j: int| 0 <= j < ids.len() && ids[j] == t;
        assert(sorted_map::sorted_keys::<i32>(hand[t].dom()).to_set().contains(p));
        assert(list[j].topic_id == t && list[j].partitions.contains(p));
    }
}

/// What a member says of itself with a heartbeat is taken over, and what it leaves out stays: its topics,
/// its pattern, where it runs, how long its session lasts, and what it owns, as far as it exists.
pub proof fn members_are_what_they_say(
    state: Option<ConsumerGroupStateView>,
    request: ConsumerGroupHeartbeatView,
    topics: Seq<TopicInfoView>,
    now: int,
    defer: bool,
    fresh: Seq<char>,
    name: Seq<char>,
    t: u128,
    p: i32,
)
    requires
        i128::MIN < now <= i128::MAX,
        request.member_epoch >= 0,
        request.member_epoch > 0 || request.instance_id is None,
        epoch_before(state) < i32::MAX - 1,
        consumer_laws::distinct_ids(topics),
        consumer_heartbeat::beat(state, request, topics, now, defer, fresh) is Ok,
    ensures
        ({
            let (after, result, task) = consumer_heartbeat::beat(state, request, topics, now, defer, fresh)->Ok_0;
            let id = result.member_id;
            let member = after.members[id];
            let was = members_before(state)[id];
            let known = is_there(state, id, now);
            &&& member.last_heartbeat == now
            &&& member.session_timeout_ms == request.session_timeout_ms
            &&& member.client_id == request.client_id && member.client_host == request.client_host
            &&& request.subscribed_topic_names is Some ==> (member.subscribed_topic_names.contains(name)
                <==> request.subscribed_topic_names->0.contains(name))
            &&& request.subscribed_topic_names is None && known ==> member.subscribed_topic_names == was.subscribed_topic_names
            &&& request.subscribed_topic_regex is Some ==> member.subscribed_topic_regex == request.subscribed_topic_regex
            &&& request.subscribed_topic_regex is None && known ==> member.subscribed_topic_regex == was.subscribed_topic_regex
            &&& request.rack_id is Some ==> member.rack_id == request.rack_id
            &&& request.rack_id is None && known ==> member.rack_id == was.rack_id
            &&& request.rebalance_timeout_ms >= 0 ==> member.rebalance_timeout_ms == request.rebalance_timeout_ms
            &&& request.rebalance_timeout_ms < 0 && known ==> member.rebalance_timeout_ms == was.rebalance_timeout_ms
            &&& request.owned_partitions is Some ==> (lists(member.owned_assignment, t, p) <==> claims(request.owned_partitions->0, topics, t, p))
            &&& request.owned_partitions is None && known ==> member.owned_assignment == was.owned_assignment
            &&& member.subscribed_topic_names.len() > 0 || member.subscribed_topic_regex is Some
        }),
{
    let r = heartbeats_go_step_by_step(state, request, topics, now, defer, fresh);
    let id = consumer_heartbeat::identified(request, fresh).member_id;
    assert(r.ready.members.dom().contains(id));
    if request.owned_partitions is Some {
        claims_are_kept(request.owned_partitions->0, topics, t, p);
    }
    if request.subscribed_topic_names is Some {
        let names = request.subscribed_topic_names->0;
        vstd::seq_lib::seq_to_set_is_finite(names);
        sorted_map::finite_sets_are_listed::<String>(names.to_set());
        let ordered = consumer_groups::ordered(names.to_set());
        assert(ordered.to_set().contains(name) == names.to_set().contains(name));
    }
}

/// What it means to leave: the member is gone, the others stay, and the group enters its next epoch. One
/// that is unknown cannot leave.
pub proof fn leaving_members_are_gone(
    state: ConsumerGroupStateView,
    request: ConsumerGroupHeartbeatView,
    topics: Seq<TopicInfoView>,
    now: int,
    defer: bool,
    fresh: Seq<char>,
    x: Seq<char>,
)
    requires
        i128::MIN < now <= i128::MAX,
        request.member_epoch == -1,
        request.member_id.len() > 0,
        state.group_epoch < i32::MAX - 1,
    ensures
        ({
            let outcome = consumer_heartbeat::beat(Some(state), request, topics, now, defer, fresh);
            let (after, result, task) = outcome->Ok_0;
            &&& outcome is Ok ==> {
                &&& is_there(Some(state), request.member_id, now)
                &&& after.members.contains_key(x) <==> is_there(Some(state), x, now) && x != request.member_id
                &&& after.group_epoch == state.group_epoch + 1
                &&& result.member_id == request.member_id
                &&& result.member_epoch == -1
                &&& result.assignment is None
            }
            &&& !is_there(Some(state), request.member_id, now) && consumer_groups::request_error(request) is None ==> outcome is Err
                && outcome->Err_0 == (ControlErrorView::GroupMemberNotFound { group: request.group_id, member: request.member_id })
        }),
{
    assert forall|member: ConsumerMemberStateView| #[trigger] consumer_groups::silent(member, now) == is_lost(member, now) by {
        assert(member.session_timeout_ms as int * 1_000_000 == member.session_timeout_ms * 1_000_000);
    }
    let outcome = consumer_heartbeat::beat(Some(state), request, topics, now, defer, fresh);
    let g = ConsumerGroupStateView { assignment_interval_ms: request.assignment_interval_ms, ..consumer_groups::without_silent(state, now) };
    if outcome is Ok {
        let rest = ConsumerGroupStateView { members: g.members.remove(request.member_id), ..g };
        let ready = consumer_groups::with_refresh_state(rest, topics, false, request.regex_refresh_interval_ms, now)->Ok_0;
        consumer_heartbeat::assigned_keeps_members(ready, topics, true, now, defer);
        let after = outcome->Ok_0.0;
        assert(after.members.dom().contains(x) == rest.members.dom().contains(x));
    }
}

/// A static member that goes away for a while keeps what it has: nothing is assigned anew.
pub proof fn static_members_are_waited_for(
    state: ConsumerGroupStateView,
    request: ConsumerGroupHeartbeatView,
    topics: Seq<TopicInfoView>,
    now: int,
    defer: bool,
    fresh: Seq<char>,
    x: Seq<char>,
)
    requires
        i128::MIN < now <= i128::MAX,
        request.member_epoch == -2,
        request.instance_id is Some,
        request.member_id.len() > 0,
        state.members.dom().finite(),
        forall|y: Seq<char>| #[trigger] state.members.contains_key(y) ==> state.members[y].member_id == y,
        consumer_heartbeat::beat(Some(state), request, topics, now, defer, fresh) is Ok,
    ensures
        ({
            let (after, result, task) = consumer_heartbeat::beat(Some(state), request, topics, now, defer, fresh)->Ok_0;
            let id = request.member_id;
            &&& is_there(Some(state), id, now)
            &&& state.members[id].instance_id == request.instance_id
            &&& after.members.contains_key(x) <==> is_there(Some(state), x, now)
            &&& x != id && after.members.contains_key(x) ==> after.members[x] == state.members[x]
            &&& after.members[id].member_epoch == -2
            &&& after.members[id].target_assignment == state.members[id].target_assignment
            &&& after.members[id].owned_assignment == state.members[id].owned_assignment
            &&& after.members[id].instance_id == state.members[id].instance_id
            &&& after.group_epoch == state.group_epoch && after.assignment_epoch == state.assignment_epoch
            &&& result.member_epoch == -2
            &&& task is None
            &&& forall|q: (u128, i32)|
                #[trigger] after.members[id].assignment_epochs.contains_key(q) <==> state.members[id].assignment_epochs.contains_key(q)
            &&& forall|q: (u128, i32)|
                #[trigger] after.members[id].assignment_epochs.contains_key(q) ==> after.members[id].assignment_epochs[q] == 0
        }),
{
    assert forall|member: ConsumerMemberStateView| #[trigger] consumer_groups::silent(member, now) == is_lost(member, now) by {
        assert(member.session_timeout_ms as int * 1_000_000 == member.session_timeout_ms * 1_000_000);
    }
    let g = ConsumerGroupStateView { assignment_interval_ms: request.assignment_interval_ms, ..consumer_groups::without_silent(state, now) };
    assert(g.members.dom().subset_of(state.members.dom()));
    vstd::set_lib::lemma_len_subset(g.members.dom(), state.members.dom());
    owners_hold_the_instance(g.members, request.instance_id->0);
}

proof fn owners_hold_the_instance(members: Map<Seq<char>, ConsumerMemberStateView>, instance: Seq<char>)
    requires
        members.dom().finite(),
    ensures
        match consumer_groups::instance_owner(members, instance) {
            Some(id) => members.contains_key(id) && members[id].instance_id == Some(instance),
            None => forall|id: Seq<char>| #[trigger] members.contains_key(id) ==> members[id].instance_id != Some(instance),
        },
{
    sorted_map::finite_sets_are_listed::<String>(members.dom());
    let ids = consumer_groups::ordered(members.dom());
    assert forall|i: int| 0 <= i < ids.len() implies members.contains_key(#[trigger] ids[i]) by {
        assert(ids.to_set().contains(ids[i]));
    }
    first_owner_holds(ids, members, instance);
    if consumer_groups::instance_owner(members, instance) is None {
        assert forall|id: Seq<char>| #[trigger] members.contains_key(id) implies members[id].instance_id != Some(instance) by {
            assert(ids.to_set().contains(id));
            let i = choose|i: int| 0 <= i < ids.len() && ids[i] == id;
            assert(members[ids[i]].instance_id != Some(instance));
        }
    }
}

proof fn first_owner_holds(ids: Seq<Seq<char>>, members: Map<Seq<char>, ConsumerMemberStateView>, instance: Seq<char>)
    requires
        forall|i: int| 0 <= i < ids.len() ==> members.contains_key(#[trigger] ids[i]),
    ensures
        match consumer_groups::first_with_instance(ids, members, instance) {
            Some(id) => members.contains_key(id) && members[id].instance_id == Some(instance),
            None => forall|i: int| 0 <= i < ids.len() ==> members[#[trigger] ids[i]].instance_id != Some(instance),
        },
    decreases ids.len(),
{
    if ids.len() > 0 {
        assert(members.contains_key(ids[0]));
        let rest = ids.drop_first();
        assert forall|i: int| 0 <= i < rest.len() implies members.contains_key(#[trigger] rest[i]) by {
            assert(rest[i] == ids[i + 1]);
        }
        first_owner_holds(rest, members, instance);
        if consumer_groups::first_with_instance(ids, members, instance) is None {
            assert forall|i: int| 0 <= i < ids.len() implies members[#[trigger] ids[i]].instance_id != Some(instance) by {
                if i > 0 {
                    assert(rest[i - 1] == ids[i]);
                }
            }
        }
    }
}

/// When an assignment is asked for that is to be computed later: with a heartbeat of a group that may have
/// a new one, and for the group as the heartbeat leaves it.
pub proof fn later_assignments_are_asked_for(
    state: Option<ConsumerGroupStateView>,
    request: ConsumerGroupHeartbeatView,
    topics: Seq<TopicInfoView>,
    now: int,
    fresh: Seq<char>,
)
    requires
        i128::MIN < now < i128::MAX,
        request.member_epoch > 0 || (request.member_epoch == 0 && request.instance_id is None),
        consumer_heartbeat::beat(state, request, topics, now, true, fresh) is Ok,
    ensures
        ({
            let (after, result, task) = consumer_heartbeat::beat(state, request, topics, now, true, fresh)->Ok_0;
            &&& task is Some <==> state is None || may_assign(state->0.assignment_timestamp, request.assignment_interval_ms, now)
            &&& task is Some ==> task->0.group_id == after.group_id && task->0.group_epoch == after.group_epoch && task->0.assignment_epoch
                == after.assignment_epoch && task->0.assignment_timestamp == after.assignment_timestamp
            &&& state is Some ==> after.assignment_epoch == state->0.assignment_epoch && after.assignment_timestamp
                == state->0.assignment_timestamp && after.group_id == state->0.group_id
            &&& request.member_epoch == 0 ==> result.assignment is Some
        }),
{
    let asked = consumer_heartbeat::identified(request, fresh);
    let start = if state is Some {
        state->0
    } else {
        consumer_groups::new_group(request.group_id, request.configured_assignors[0])
    };
    let g = ConsumerGroupStateView { assignment_interval_ms: request.assignment_interval_ms, ..consumer_groups::without_silent(start, now) };
    let seat = consumer_heartbeat::seat_of(g, asked, topics, now)->Ok_0;
    let member = consumer_groups::with_request(seat.member, asked, topics, now);
    let full = seat.group.members.insert(asked.member_id, member);
    assert(full.contains_key(asked.member_id));
    assert(!Map::<Seq<char>, ConsumerMemberStateView>::empty().contains_key(asked.member_id));
    assert(full != Map::<Seq<char>, ConsumerMemberStateView>::empty());
    assert(request.assignment_interval_ms as int * 1_000_000 == request.assignment_interval_ms * 1_000_000);
}

/// When patterns are held against the topics anew: with the first heartbeat of a member whose pattern
/// nobody else has, where it was never done before, and once the interval for it is over.
pub proof fn patterns_are_looked_at_again(
    state: Option<ConsumerGroupStateView>,
    request: ConsumerGroupHeartbeatView,
    topics: Seq<TopicInfoView>,
    now: int,
    fresh: Seq<char>,
)
    requires
        i128::MIN < now < i128::MAX,
        request.member_epoch > 0 || (request.member_epoch == 0 && request.instance_id is None),
        epoch_before(state) < i32::MAX - 1,
        consumer_heartbeat::beat(state, request, topics, now, true, fresh) is Ok,
    ensures
        ({
            let (after, result, task) = consumer_heartbeat::beat(state, request, topics, now, true, fresh)->Ok_0;
            let member = after.members[result.member_id];
            let last = if state is Some {
                state->0.regex_refresh_timestamp
            } else {
                None
            };
            let new_pattern = member.subscribed_topic_regex is Some && forall|x: Seq<char>|
                #[trigger] members_before(state).contains_key(x) ==> members_before(state)[x].subscribed_topic_regex != member.subscribed_topic_regex;
            let nobody_has_one = forall|x: Seq<char>| #[trigger] after.members.contains_key(x) ==> after.members[x].subscribed_topic_regex is None;
            &&& nobody_has_one ==> !after.regex_refresh_pending && after.regex_refresh_timestamp is None
            &&& member.subscribed_topic_regex is Some && (new_pattern || last is None || last->0 + request.regex_refresh_interval_ms * 1_000_000
                <= now) ==> after.regex_refresh_pending
            &&& !nobody_has_one ==> after.regex_refresh_timestamp == last
            &&& state is Some && state->0.regex_refresh_pending && !nobody_has_one ==> after.regex_refresh_pending
        }),
{
    let r = heartbeats_go_step_by_step(state, request, topics, now, true, fresh);
    let asked = consumer_heartbeat::identified(request, fresh);
    let id = asked.member_id;
    let start = if state is Some {
        state->0
    } else {
        consumer_groups::new_group(request.group_id, request.configured_assignors[0])
    };
    let g = ConsumerGroupStateView { assignment_interval_ms: request.assignment_interval_ms, ..consumer_groups::without_silent(start, now) };
    let seat = consumer_heartbeat::seat_of(g, asked, topics, now)->Ok_0;
    assert(seat.group == g);
    let m = consumer_groups::with_request(seat.member, asked, topics, now);
    let full = ConsumerGroupStateView { members: seat.group.members.insert(id, m), ..seat.group };
    let after = consumer_heartbeat::beat(state, request, topics, now, true, fresh)->Ok_0.0;
    assert(after.members.dom() =~= full.members.dom());
    assert forall|x: Seq<char>| #[trigger] after.members.contains_key(x) implies full.members.contains_key(x)
        && after.members[x].subscribed_topic_regex == full.members[x].subscribed_topic_regex by {
        assert(full.members.dom().contains(x));
    }
    if consumer_groups::has_patterns(full.members) {
        let x = choose|x: Seq<char>| #[trigger] full.members.contains_key(x) && full.members[x].subscribed_topic_regex is Some;
        assert(after.members.dom().contains(x));
        assert(after.members.contains_key(x));
    }
    if m.subscribed_topic_regex is Some {
        assert(full.members.contains_key(id));
        assert(consumer_groups::has_patterns(full.members));
        if consumer_groups::has_pattern(g.members, m.subscribed_topic_regex->0) {
            let x = choose|x: Seq<char>| #[trigger] g.members.contains_key(x) && g.members[x].subscribed_topic_regex == m.subscribed_topic_regex;
            assert(members_before(state).contains_key(x));
        }
        if start.regex_refresh_timestamp is Some {
            let last = start.regex_refresh_timestamp->0;
            let n = request.regex_refresh_interval_ms as int;
            if last + request.regex_refresh_interval_ms * 1_000_000 <= now {
                assert(n > 0);
                assert((now - last) / 1_000_000 >= n);
                assert(consumer_groups::elapsed_ms(last, now) >= n);
            }
        }
    }
}

/// With which epoch a member is heard: with its own; or with the one before, where the answer to its last
/// heartbeat may have been lost, as long as it claims no more than it was given. With any other it is
/// turned away, and told the epoch that it has.
pub proof fn members_recover_from_lost_answers(
    state: ConsumerGroupStateView,
    request: ConsumerGroupHeartbeatView,
    topics: Seq<TopicInfoView>,
    now: int,
    defer: bool,
    fresh: Seq<char>,
    i: int,
    p: i32,
)
    requires
        i128::MIN < now <= i128::MAX,
        request.member_epoch > 0,
        request.member_id.len() > 0,
    ensures
        ({
            let outcome = consumer_heartbeat::beat(Some(state), request, topics, now, defer, fresh);
            let member = state.members[request.member_id];
            let known = is_there(Some(state), request.member_id, now);
            &&& outcome is Ok ==> known && request.member_epoch <= member.member_epoch
            &&& outcome is Ok && request.member_epoch < member.member_epoch ==> {
                &&& request.member_epoch == member.previous_member_epoch
                &&& request.owned_partitions is Some
                &&& 0 <= i < request.owned_partitions->0.len() && request.owned_partitions->0[i].partitions.contains(p) ==> lists(
                    member.current_assignment,
                    request.owned_partitions->0[i].topic_id,
                    p,
                )
            }
            &&& consumer_groups::request_error(request) is None && known && request.member_epoch != member.member_epoch && (
            request.member_epoch != member.previous_member_epoch || request.owned_partitions is None || request.member_epoch > member.member_epoch)
                ==> outcome is Err && outcome->Err_0 == (ControlErrorView::FencedMemberEpoch {
                group: request.group_id,
                member: request.member_id,
                expected: member.member_epoch,
                actual: request.member_epoch,
            })
            &&& consumer_groups::request_error(request) is None && !known ==> outcome is Err && outcome->Err_0 == (
            ControlErrorView::GroupMemberNotFound { group: request.group_id, member: request.member_id })
        }),
{
    the_lost_are_gone(state, now);
    let member = state.members[request.member_id];
    if request.owned_partitions is Some && 0 <= i < request.owned_partitions->0.len() && request.owned_partitions->0[i].partitions.contains(p) {
        let owned = request.owned_partitions->0;
        assert(owned[i].partitions.contains(p));
        assert(consumer_types::owned_set(owned).contains((owned[i].topic_id, p)));
        lists_are_sets(member.current_assignment);
        assert(consumer_types::assignment_set(member.current_assignment).contains((owned[i].topic_id, p)) == lists(
            member.current_assignment,
            owned[i].topic_id,
            p,
        ));
    }
}

/// Which epoch a member is remembered to have had before: the one that it left, where it entered another;
/// its own, where it got other partitions in it; and else the one remembered so far.
pub proof fn epochs_are_remembered(
    state: Option<ConsumerGroupStateView>,
    request: ConsumerGroupHeartbeatView,
    topics: Seq<TopicInfoView>,
    now: int,
    defer: bool,
    fresh: Seq<char>,
    t: u128,
    p: i32,
)
    requires
        i128::MIN < now <= i128::MAX,
        request.member_epoch >= 0,
        request.member_epoch > 0 || request.instance_id is None,
        epoch_before(state) < i32::MAX - 1,
        consumer_heartbeat::beat(state, request, topics, now, defer, fresh) is Ok,
        is_there(state, consumer_heartbeat::beat(state, request, topics, now, defer, fresh)->Ok_0.1.member_id, now),
    ensures
        ({
            let (after, result, task) = consumer_heartbeat::beat(state, request, topics, now, defer, fresh)->Ok_0;
            let was = members_before(state)[result.member_id];
            let member = after.members[result.member_id];
            &&& member.member_epoch != was.member_epoch ==> member.previous_member_epoch == was.member_epoch
            &&& member.member_epoch == was.member_epoch && lists(was.current_assignment, t, p) != lists(member.current_assignment, t, p)
                ==> member.previous_member_epoch == member.member_epoch
            &&& member.member_epoch == was.member_epoch && member.previous_member_epoch != was.previous_member_epoch
                ==> member.previous_member_epoch == member.member_epoch
        }),
{
    let r = heartbeats_go_step_by_step(state, request, topics, now, defer, fresh);
    let id = consumer_heartbeat::identified(request, fresh).member_id;
    assert(r.ready.members.dom().contains(id));
    let m = r.ready.members[id];
    let next = consumer_reconcile::allowed(r.ready, id);
    let target = consumer_types::assignment_set(m.target_assignment);
    consumer_laws::assignments_are_finite(m.target_assignment);
    assert(next.subset_of(target));
    vstd::set_lib::lemma_len_subset(next, target);
    consumer_laws::listed_partitions_are_kept(next, consumer_types::names_in(m.target_assignment));
    let member = consumer_reconcile::reconciled(r.ready, id, request.heartbeat_interval_ms).0.members[id];
    lists_are_sets(m.current_assignment);
    lists_are_sets(member.current_assignment);
    assert(lists(member.current_assignment, t, p) == next.contains((t, p)));
    assert(lists(m.current_assignment, t, p) == consumer_types::assignment_set(m.current_assignment).contains((t, p)));
}

/// Who brings the instance id of another member takes over its seat where that one is away, and is turned
/// away where it is not.
pub proof fn seats_are_taken_over_from_those_away(
    state: ConsumerGroupStateView,
    request: ConsumerGroupHeartbeatView,
    topics: Seq<TopicInfoView>,
    now: int,
    fresh: Seq<char>,
    holder: Seq<char>,
)
    requires
        i128::MIN < now <= i128::MAX,
        state.members.dom().finite(),
        request.member_epoch == 0,
        request.member_id.len() > 0,
        request.instance_id is Some,
        is_there(Some(state), holder, now),
        state.members[holder].instance_id == request.instance_id,
        forall|y: Seq<char>| #[trigger] state.members.contains_key(y) && state.members[y].instance_id == request.instance_id ==> y == holder,
        holder != request.member_id,
    ensures
        ({
            let outcome = consumer_heartbeat::beat(Some(state), request, topics, now, true, fresh);
            let after = outcome->Ok_0.0;
            &&& state.members[holder].member_epoch != -2 && consumer_groups::request_error(request) is None ==> outcome is Err && outcome->Err_0
                == (ControlErrorView::UnreleasedInstanceId {
                group: request.group_id,
                instance_id: request.instance_id->0,
                member: holder,
            })
            &&& outcome is Ok ==> {
                &&& state.members[holder].member_epoch == -2
                &&& !after.members.contains_key(holder)
                &&& after.members.contains_key(request.member_id)
                &&& after.members[request.member_id].instance_id == request.instance_id
                &&& after.members[request.member_id].target_assignment == state.members[holder].target_assignment
                &&& after.members[request.member_id].last_heartbeat == now
            }
        }),
{
    the_lost_are_gone(state, now);
    let g = ConsumerGroupStateView { assignment_interval_ms: request.assignment_interval_ms, ..consumer_groups::without_silent(state, now) };
    assert(g.members.dom().subset_of(state.members.dom())) by {
        assert forall|x: Seq<char>| #[trigger] g.members.dom().contains(x) implies state.members.dom().contains(x) by {
            assert(g.members.contains_key(x));
        }
    }
    vstd::set_lib::lemma_len_subset(g.members.dom(), state.members.dom());
    assert(g.members.contains_key(holder));
    owners_hold_the_instance(g.members, request.instance_id->0);
    assert(consumer_groups::instance_owner(g.members, request.instance_id->0) == Some(holder));
}

} // verus!
