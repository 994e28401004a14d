//! What joining a classic group brings about.

use crate::classic_barrier;
use crate::classic_groups;
use crate::classic_groups::MemoryGroupView;
use crate::classic_join;
use crate::classic_join::{ClassicGroupsView, JoinRequestView};
use crate::classic_laws;
use crate::classic_member_laws;
use crate::classic_member_laws::{is_silent, some_are_silent};
use crate::error::ControlErrorView;
use crate::groups;
use crate::groups::{GroupMemberView, GroupProtocolView, JoinGroupResultView};
use crate::sorted_map;
use crate::text;
use vstd::prelude::*;

verus! {

/// Whether a member lists a protocol.
pub open spec fn lists(set: Seq<GroupProtocolView>, name: Seq<char>) -> bool {
    exists|j: int| 0 <= j < set.len() && (#[trigger] set[j]).name == name
}

/// Whether every member lists a protocol.
pub open spec fn all_list(sets: Seq<Seq<GroupProtocolView>>, name: Seq<char>) -> bool {
    forall|i: int| 0 <= i < sets.len() ==> lists(#[trigger] sets[i], name)
}

/// Whether, of the protocols that every member lists, a member lists this one first.
pub open spec fn prefers(sets: Seq<Seq<GroupProtocolView>>, set: Seq<GroupProtocolView>, name: Seq<char>) -> bool {
    all_list(sets, name) && exists|j: int|
        0 <= j < set.len() && (#[trigger] set[j]).name == name && forall|k: int| 0 <= k < j ==> !all_list(sets, (#[trigger] set[k]).name)
}

/// How many of the first `n` members prefer a protocol.
pub open spec fn backing(sets: Seq<Seq<GroupProtocolView>>, n: nat, name: Seq<char>) -> nat
    decreases n,
{
    if n == 0 {
        0
    } else {
        backing(sets, (n - 1) as nat, name) + if prefers(sets, sets[n - 1], name) {
            1nat
        } else {
            0
        }
    }
}

proof fn listed_by_all(sets: Seq<Seq<GroupProtocolView>>, name: Seq<char>)
    ensures
        groups::offered_by_all(sets, name) == all_list(sets, name),
{
    assert(forall|set: Seq<GroupProtocolView>| #![trigger groups::offers(set, name)] groups::offers(set, name) == lists(set, name));
    assert forall|i: int| 0 <= i < sets.len() implies groups::offers(#[trigger] sets[i], name) == lists(sets[i], name) by {}
}

proof fn ballots_show_preference(sets: Seq<Seq<GroupProtocolView>>, set: Seq<GroupProtocolView>, name: Seq<char>)
    ensures
        (groups::ballot(sets, set) == Some(name)) == prefers(sets, set, name),
    decreases set.len(),
{
    if set.len() > 0 {
        let rest = set.drop_first();
        listed_by_all(sets, set[0].name);
        listed_by_all(sets, name);
        ballots_show_preference(sets, rest, name);
        assert forall|k: int| 0 <= k < rest.len() implies #[trigger] rest[k] == set[k + 1] by {}
        if groups::offered_by_all(sets, set[0].name) {
            if set[0].name == name {
                assert(prefers(sets, set, name));
            } else if prefers(sets, set, name) {
                let j = choose|j: int|
                    0 <= j < set.len() && (#[trigger] set[j]).name == name && forall|k: int| 0 <= k < j ==> !all_list(sets, (#[trigger] set[k]).name);
                assert(!all_list(sets, set[0].name));
            }
        } else {
            if prefers(sets, set, name) {
                let j = choose|j: int|
                    0 <= j < set.len() && (#[trigger] set[j]).name == name && forall|k: int| 0 <= k < j ==> !all_list(sets, (#[trigger] set[k]).name);
                assert(j > 0);
                assert(rest[j - 1].name == name);
                assert forall|k: int| 0 <= k < j - 1 implies !all_list(sets, (#[trigger] rest[k]).name) by {
                    assert(!all_list(sets, set[k + 1].name));
                }
            }
            if prefers(sets, rest, name) {
                let j = choose|j: int|
                    0 <= j < rest.len() && (#[trigger] rest[j]).name == name && forall|k: int| 0 <= k < j ==> !all_list(sets, (#[trigger] rest[k]).name);
                assert(set[j + 1].name == name);
                assert forall|k: int| 0 <= k < j + 1 implies !all_list(sets, (#[trigger] set[k]).name) by {
                    if k > 0 {
                        assert(rest[k - 1].name == set[k].name);
                    }
                }
            }
        }
    }
}

proof fn votes_are_backing(sets: Seq<Seq<GroupProtocolView>>, n: nat, name: Seq<char>)
    requires
        n <= sets.len(),
    ensures
        groups::votes(sets, n, name) == backing(sets, n, name),
    decreases n,
{
    if n > 0 {
        votes_are_backing(sets, (n - 1) as nat, name);
        ballots_show_preference(sets, sets[n - 1], name);
    }
}

/// Which protocol a group speaks: one that every member lists, and of those the one that most members
/// prefer, the first in order where as many prefer another. There is one wherever every member lists
/// some protocol.
pub proof fn groups_speak_what_most_prefer(sets: Seq<Seq<GroupProtocolView>>, other: Seq<char>)
    ensures
        ({
            let chosen = groups::selected(sets);
            &&& sets.len() > 0 && all_list(sets, other) ==> chosen is Some
            &&& sets.len() == 0 ==> chosen is None
            &&& chosen is Some ==> all_list(sets, chosen->0)
            &&& chosen is Some && all_list(sets, other) ==> backing(sets, sets.len(), chosen->0) >= backing(sets, sets.len(), other)
            &&& chosen is Some && all_list(sets, other) && other != chosen->0 && backing(sets, sets.len(), chosen->0) == backing(
                sets,
                sets.len(),
                other,
            ) ==> text::text_before(chosen->0, other)
        }),
{
    groups::selection_is_offered_by_all(sets);
    listed_by_all(sets, other);
    if groups::selected(sets) is Some {
        let name = groups::selected(sets)->0;
        listed_by_all(sets, name);
        votes_are_backing(sets, sets.len(), name);
        votes_are_backing(sets, sets.len(), other);
        assert(groups::wins(sets, name));
    }
}

/// The group that a request is about, as it is before; a new one where there is none.
pub open spec fn asked_group(s: ClassicGroupsView, request: JoinRequestView) -> MemoryGroupView {
    if s.groups.contains_key(request.group_id) {
        s.groups[request.group_id]
    } else {
        classic_groups::new_group()
    }
}

/// Whether somebody in the group holds the instance id of a request.
pub open spec fn instance_is_held(g: MemoryGroupView, request: JoinRequestView) -> bool {
    request.group_instance_id is Some && exists|x: Seq<char>|
        #[trigger] g.members.contains_key(x) && g.members[x].group_instance_id == request.group_instance_id
}

/// Whether a group is as every call leaves it, with nobody silent.
pub open spec fn is_in_order(g: MemoryGroupView, now: int) -> bool {
    &&& classic_laws::sound(g)
    &&& g.generation_id < i32::MAX - 1
    &&& !some_are_silent(g, now)
}

pub(crate) proof fn nobody_expires(g: MemoryGroupView, now: int)
    requires
        i128::MIN <= now < i128::MAX,
        !some_are_silent(g, now),
    ensures
        !classic_groups::some_expired(g, now),
        classic_groups::without_expired(g, now).members == g.members,
        classic_groups::without_expired(g, now).assignments == g.assignments,
{
    classic_member_laws::silence_ends_sessions(g, now);
    assert forall|x: Seq<char>| #[trigger] g.members.contains_key(x) implies !classic_groups::session_over(g, g.members[x], now) by {
        assert(!is_silent(g, g.members[x], now));
    }
    assert(classic_groups::without_expired(g, now).members =~= g.members);
    assert(classic_groups::without_expired(g, now).assignments =~= g.assignments);
}

/// Under which id a member comes in: under the one that it asks for, which it has to have, as a member or
/// as a newcomer that was given it and came back in time; else under a new one. An instance id belongs to
/// who holds it.
pub open spec fn is_let_in(s: ClassicGroupsView, request: JoinRequestView, now: int, fresh: Seq<char>, id: Seq<char>) -> bool {
    let g = asked_group(s, request);
    let asked = request.requested_member_id;
    if asked.len() == 0 {
        id == request.client_id + "-"@ + fresh && (request.group_instance_id is Some || request.api_version < 4)
    } else if request.group_instance_id is Some {
        id == asked && g.members.contains_key(asked) && g.members[asked].group_instance_id == request.group_instance_id
    } else {
        id == asked && (g.members.contains_key(asked) || (s.pending_members.contains_key((request.group_id, asked))
            && s.pending_members[(request.group_id, asked)] > now))
    }
}

proof fn offers_are_told(request: JoinRequestView, name: Seq<char>)
    requires
        groups::offers(groups::offered(request.protocols), name),
    ensures
        exists|i: int|
            0 <= i < request.protocols.len() && (#[trigger] request.protocols[i]).0 == name && request.protocols[i].1 == groups::find_offer(
                groups::offered(request.protocols),
                name,
            )->0.metadata,
    decreases request.protocols.len(),
{
    let set = groups::offered(request.protocols);
    if set.len() > 0 && set[0].name != name {
        let rest = JoinRequestView { protocols: request.protocols.drop_first(), ..request };
        assert(groups::offered(rest.protocols) =~= set.drop_first());
        let j = choose|j: int| 0 <= j < set.len() && (#[trigger] set[j]).name == name;
        assert(set.drop_first()[j - 1].name == name);
        offers_are_told(rest, name);
        let i = choose|i: int|
            0 <= i < rest.protocols.len() && (#[trigger] rest.protocols[i]).0 == name && rest.protocols[i].1 == groups::find_offer(
                groups::offered(rest.protocols),
                name,
            )->0.metadata;
        assert(request.protocols[i + 1] == rest.protocols[i]);
    } else if set.len() > 0 {
        assert(request.protocols[0].0 == name);
    }
}

/// What a seat is, after a member was let in: the member is there under its id, as it described itself,
/// heard of just now, with what it sent for the protocol that the group speaks. The others are those from
/// before, without the one whose instance id the member took.
pub open spec fn has_a_seat(g: MemoryGroupView, h: MemoryGroupView, request: JoinRequestView, now: int, answer: JoinGroupResultView, x: Seq<char>) -> bool {
    let id = answer.member_id;
    let member = h.members[id];
    &&& h.members.contains_key(id)
    &&& member.member_id == id
    &&& member.group_instance_id == request.group_instance_id
    &&& member.subscribed_topics == request.subscribed_topics
    &&& member.client_id == request.client_id
    &&& member.client_host == request.client_host
    &&& member.session_timeout_ms == request.session_timeout_ms
    &&& member.last_heartbeat == now
    &&& h.protocol_type == request.protocol_type
    &&& answer.protocol_type == request.protocol_type
    &&& answer.protocol_name == h.protocol_name
    &&& answer.generation_id == h.generation_id
    &&& x != id && h.members.contains_key(x) ==> g.members.contains_key(x) && h.members[x].last_heartbeat == g.members[x].last_heartbeat
        && h.members[x].subscribed_topics == g.members[x].subscribed_topics && h.members[x].group_instance_id == g.members[x].group_instance_id
        && h.members[x].joined_rebalance_id == g.members[x].joined_rebalance_id
}

pub(crate) proof fn everyone_is_told(members: Map<Seq<char>, GroupMemberView>, x: Seq<char>)
    requires
        members.dom().finite(),
    ensures
        members.contains_key(x) ==> classic_groups::listed(members).contains(members[x]),
        classic_groups::listed(members).len() == members.dom().len(),
{
    let ids = classic_groups::ordered(members.dom());
    sorted_map::finite_sets_are_listed::<String>(members.dom());
    sorted_map::strictly_sorted_unique::<String>(ids);
    ids.unique_seq_to_set();
    if members.contains_key(x) {
        assert(ids.to_set().contains(x));
        let i = choose|i: int| 0 <= i < ids.len() && ids[i] == x;
        assert(classic_groups::listed(members)[i] == members[x]);
    }
}

/// Joining in one step. A complete request of somebody who may come in, under a protocol that the whole
/// group speaks, gives a seat. A newcomer, and a member that speaks or reads something else than before,
/// begin a new generation, without assignments; a member that comes back as it was changes nothing. The
/// answer tells of everybody in the group.
pub proof fn joining_gives_a_seat(s: ClassicGroupsView, request: JoinRequestView, now: int, fresh: Seq<char>, x: Seq<char>)
    requires
        i128::MIN <= now < i128::MAX,
        is_in_order(asked_group(s, request), now),
    ensures
        ({
            let (after, answer) = classic_join::joined(s, request, now, fresh);
            let g = asked_group(s, request);
            let h = after.groups[request.group_id];
            let told = answer->Ok_0;
            let id = told.member_id;
            let again = request.requested_member_id.len() > 0 && g.members.contains_key(id) && id == request.requested_member_id;
            let before = g.members[id];
            let same_words = request.protocols.len() == before.protocols.len() && forall|i: int|
                0 <= i < request.protocols.len() ==> (#[trigger] request.protocols[i]).0 == before.protocols[i].name;
            &&& request.group_id.len() == 0 || request.protocol_type.len() == 0 || request.protocols.len() == 0 || request.session_timeout_ms <= 0
                ==> answer is Err && after == s
            &&& answer is Ok ==> {
                &&& after.groups.contains_key(request.group_id)
                &&& is_let_in(s, request, now, fresh, id)
                &&& has_a_seat(g, h, request, now, told, x)
                &&& exists|i: int|
                    0 <= i < request.protocols.len() && (#[trigger] request.protocols[i]).0 == h.protocol_name && request.protocols[i].1
                        == h.members[id].metadata
                &&& g.protocol_type.len() == 0 || g.protocol_type == request.protocol_type
                &&& h.members.contains_key(x) ==> told.members.contains(h.members[x])
                &&& told.members.len() == h.members.dom().len()
                &&& !again && !instance_is_held(g, request) ==> h.generation_id == g.generation_id + 1 && !h.assignments.contains_key(x)
                &&& again && (before.subscribed_topics != request.subscribed_topics || !same_words) ==> h.generation_id == g.generation_id + 1
                    && !h.assignments.contains_key(x)
                &&& g.protocol_name.len() > 0 && h.protocol_name != g.protocol_name ==> h.generation_id == g.generation_id + 1
                    && !h.assignments.contains_key(x)
                &&& again && before.subscribed_topics == request.subscribed_topics && same_words && h.protocol_name == g.protocol_name
                    ==> h.generation_id == g.generation_id && h.assignments == g.assignments
            }
            &&& x != request.group_id ==> after.groups.contains_key(x) == s.groups.contains_key(x)
        }),
{
    let (after, answer) = classic_join::joined(s, request, now, fresh);
    let g = asked_group(s, request);
    let gid = request.group_id;
    nobody_expires(g, now);
    if answer is Ok {
        let c = classic_join::cleared(s, gid, now);
        let group = c.groups.get(gid);
        let b = if group is Some {
            group->0
        } else {
            classic_groups::new_group()
        };
        assert(b.members == g.members && b.assignments == g.assignments && b.generation_id == g.generation_id && b.protocol_name == g.protocol_name);
        let (id, replaced) = classic_join::resolved(group, c.pending_members, request, fresh)->Ok_0;
        let existing = request.requested_member_id.len() > 0 && classic_join::is_member(group, request.requested_member_id);
        let incoming = groups::offered(request.protocols);
        if request.group_instance_id is Some {
            classic_laws::owner_holds_instance(g.members, request.group_instance_id->0);
        }
        assert(classic_laws::sound(b)) by {
            let name = choose|name: Seq<char>| classic_laws::all_offer(g.members, name);
            assert(classic_laws::all_offer(b.members, name));
        }
        classic_laws::agreement_when_compatible(b, group is Some, request, id, replaced);
        let rest = classic_join::others(b.members, id, replaced);
        let name = classic_join::agreed(rest, incoming)->0;
        assert(rest.dom().subset_of(g.members.dom()));
        vstd::set_lib::lemma_len_subset(rest.dom(), g.members.dom());
        sorted_map::finite_sets_are_listed::<String>(rest.dom());
        groups::selection_is_offered_by_all(classic_groups::member_sets(rest).push(incoming));
        classic_join::member_sets_offer(rest, incoming, name);
        groups::find_offer_finds(incoming, name);
        offers_are_told(request, name);
        let h = after.groups[gid];
        assert(h.members.dom() =~= rest.dom().insert(id));
        everyone_is_told(h.members, x);
        let before = g.members[id];
        if request.protocols.len() == before.protocols.len() && forall|i: int|
            0 <= i < request.protocols.len() ==> (#[trigger] request.protocols[i]).0 == before.protocols[i].name {
            assert forall|i: int| 0 <= i < incoming.len() implies classic_join::protocol_names(incoming)[i] == #[trigger] classic_join::protocol_names(
                before.protocols,
            )[i] by {
                assert(request.protocols[i].0 == before.protocols[i].name);
            }
            assert(classic_join::protocol_names(incoming) =~= classic_join::protocol_names(before.protocols));
        } else if classic_join::protocol_names(incoming) == classic_join::protocol_names(before.protocols) {
            assert(incoming.len() == classic_join::protocol_names(incoming).len());
            assert(before.protocols.len() == classic_join::protocol_names(before.protocols).len());
            assert forall|i: int| 0 <= i < request.protocols.len() implies (#[trigger] request.protocols[i]).0 == before.protocols[i].name by {
                assert(classic_join::protocol_names(incoming)[i] == classic_join::protocol_names(before.protocols)[i]);
            }
        }
        assert(is_let_in(s, request, now, fresh, id));
        assert(has_a_seat(g, h, request, now, answer->Ok_0, x));
        assert(h.members[id].metadata == groups::find_offer(incoming, name)->0.metadata);
    }
}

/// Who is turned away from a group that speaks what the member speaks: just those that may not come in. A
/// newcomer without an id is given one, if it knows what to do with it, for as long as its session.
pub proof fn members_are_let_in(s: ClassicGroupsView, request: JoinRequestView, now: int, fresh: Seq<char>, id: Seq<char>)
    requires
        i128::MIN <= now < i128::MAX - 3_000_000_000_000_000,
        is_in_order(asked_group(s, request), now),
        request.group_id.len() > 0,
        request.protocol_type.len() > 0,
        request.protocols.len() > 0,
        request.session_timeout_ms > 0,
        forall|y: Seq<char>| #[trigger] asked_group(s, request).members.contains_key(y) ==> asked_group(s, request).members[y].protocols.len() > 0
            && asked_group(s, request).members[y].protocols[0].name == request.protocols[0].0,
        asked_group(s, request).protocol_type == request.protocol_type || asked_group(s, request).protocol_type.len() == 0,
    ensures
        ({
            let (after, answer) = classic_join::joined(s, request, now, fresh);
            let new_id = request.client_id + "-"@ + fresh;
            let key = (request.group_id, new_id);
            &&& is_let_in(s, request, now, fresh, id) ==> answer is Ok && answer->Ok_0.member_id == id
            &&& request.group_instance_id is None && request.requested_member_id.len() == 0 && request.api_version >= 4 ==> answer == Err::<
                JoinGroupResultView,
                ControlErrorView,
            >(ControlErrorView::MemberIdRequired { member_id: new_id }) && after.pending_members.contains_key(key) && after.pending_members[key] == now
                + request.session_timeout_ms * 1_000_000
            &&& request.requested_member_id.len() > 0 && instance_is_held(asked_group(s, request), request) && !(asked_group(
                s,
                request,
            ).members.contains_key(request.requested_member_id) && asked_group(s, request).members[request.requested_member_id].group_instance_id
                == request.group_instance_id) ==> answer == Err::<JoinGroupResultView, ControlErrorView>(
                ControlErrorView::FencedInstanceId { group: request.group_id, instance_id: request.group_instance_id->0 },
            )
        }),
{
    let g = asked_group(s, request);
    let gid = request.group_id;
    nobody_expires(g, now);
    let c = classic_join::cleared(s, gid, now);
    let group = c.groups.get(gid);
    let incoming = groups::offered(request.protocols);
    if request.group_instance_id is Some {
        classic_laws::owner_holds_instance(g.members, request.group_instance_id->0);
    }
    if group is Some {
        let sets = classic_groups::member_sets(g.members).push(incoming);
        let name = request.protocols[0].0;
        sorted_map::finite_sets_are_listed::<String>(g.members.dom());
        classic_join::member_sets_offer(g.members, incoming, name);
        assert(groups::offers(incoming, name)) by {
            assert(incoming[0].name == name);
        }
        assert forall|y: Seq<char>| #[trigger] g.members.contains_key(y) implies groups::offers(g.members[y].protocols, name) by {
            assert(g.members[y].protocols[0].name == name);
        }
        assert(groups::offered_by_all(sets, name));
        groups::selection_is_offered_by_all(sets);
        assert(classic_join::compatible(group->0, request.protocol_type, incoming));
    }
    assert(request.session_timeout_ms as int * 1_000_000 == request.session_timeout_ms * 1_000_000);
}

/// When a rebalance is over: once everybody who is not silent has joined it, and its initial delay, if
/// any, has gone by; or else when its time is up. Then the next generation begins, without the members
/// that did not come in time; those with an instance id keep their seats.
pub proof fn rebalances_wait_for_everybody(
    s: ClassicGroupsView,
    group_id: Seq<char>,
    member_id: Seq<char>,
    instance: Option<Seq<char>>,
    rebalance_id: u128,
    now: int,
    x: Seq<char>,
)
    requires
        i128::MIN <= now < i128::MAX,
        s.groups.contains_key(group_id),
        classic_laws::sound(s.groups[group_id]),
        s.groups[group_id].generation_id < i32::MAX,
        classic_barrier::polled(s, group_id, member_id, instance, rebalance_id, now).1 is Ok,
    ensures
        ({
            let (after, answer) = classic_barrier::polled(s, group_id, member_id, instance, rebalance_id, now);
            let g = s.groups[group_id];
            let h = after.groups[group_id];
            let told = answer->Ok_0;
            let all_in = forall|y: Seq<char>|
                #[trigger] g.members.contains_key(y) && !is_silent(g, g.members[y], now) ==> g.members[y].joined_rebalance_id == Some(rebalance_id);
            let too_late = g.rebalance_deadline is Some && g.rebalance_deadline->0 <= now;
            let delayed = g.initial_rebalance_deadline is Some && g.initial_rebalance_deadline->0 > now;
            &&& g.rebalance_id == Some(rebalance_id)
            &&& g.members.contains_key(member_id)
            &&& h.rebalance_pending <==> g.rebalance_pending && !too_late && (!all_in || delayed)
            &&& h.generation_id == if g.rebalance_pending && !h.rebalance_pending {
                g.generation_id + 1
            } else {
                g.generation_id as int
            }
            &&& h.members.contains_key(x) <==> g.members.contains_key(x) && !is_silent(g, g.members[x], now) && !(g.rebalance_pending
                && too_late && g.members[x].group_instance_id is None && g.members[x].joined_rebalance_id != Some(rebalance_id))
            &&& g.rebalance_pending && !h.rebalance_pending && h.members.contains_key(x) && g.members[x].joined_rebalance_id == Some(
                rebalance_id,
            ) ==> h.members.contains_key(h.leader) && h.members[h.leader].joined_rebalance_id == Some(rebalance_id)
            &&& told.pending_rebalance == if h.rebalance_pending {
                Some(rebalance_id)
            } else {
                None
            }
            &&& told.member_id == member_id && told.generation_id == h.generation_id && told.leader == h.leader && told.protocol_name
                == h.protocol_name
            &&& h.members.contains_key(x) ==> told.members.contains(h.members[x])
        }),
{
    let g = s.groups[group_id];
    let h = classic_barrier::polled(s, group_id, member_id, instance, rebalance_id, now).0.groups[group_id];
    if instance is Some {
        classic_laws::owner_holds_instance(g.members, instance->0);
    }
    classic_member_laws::silence_ends_sessions(g, now);
    classic_laws::without_expired_is_sound(g, now);
    let rest = classic_groups::without_expired(g, now);
    classic_laws::progressed_is_sound(rest, now);
    everyone_is_told(h.members, x);
    let all_in = forall|y: Seq<char>|
        #[trigger] g.members.contains_key(y) && !is_silent(g, g.members[y], now) ==> g.members[y].joined_rebalance_id == Some(rebalance_id);
    if all_in {
        assert forall|y: Seq<char>| #[trigger] rest.members.contains_key(y) implies classic_barrier::has_joined(rest, rest.members[y]) by {
            assert(g.members.contains_key(y));
        }
    } else {
        let y = choose|y: Seq<char>|
            #[trigger] g.members.contains_key(y) && !is_silent(g, g.members[y], now) && g.members[y].joined_rebalance_id != Some(rebalance_id);
        assert(rest.members.contains_key(y));
        assert(!classic_barrier::has_joined(rest, rest.members[y]));
    }
    if g.rebalance_pending && !h.rebalance_pending && h.members.contains_key(x) && g.members[x].joined_rebalance_id == Some(rebalance_id) {
        leaders_have_joined(rest, now, x);
    }
}

pub(crate) proof fn leaders_have_joined(g: MemoryGroupView, now: int, x: Seq<char>)
    requires
        g.members.dom().finite(),
        classic_barrier::gathered(g, now).members.contains_key(x),
        classic_barrier::has_joined(g, g.members[x]),
    ensures
        ({
            let h = classic_barrier::gathered(g, now);
            h.members.contains_key(h.leader) && h.members[h.leader].joined_rebalance_id == g.rebalance_id
        }),
{
    let rest = if classic_barrier::timed_out(g, now) {
        MemoryGroupView {
            members: sorted_map::filtered(g.members, |id: Seq<char>, member: GroupMemberView| !classic_barrier::left_behind(g, member)),
            assignments: sorted_map::filtered(
                g.assignments,
                |id: Seq<char>, bytes: Seq<u8>| !(g.members.contains_key(id) && classic_barrier::left_behind(g, g.members[id])),
            ),
            ..g
        }
    } else {
        g
    };
    let some = sorted_map::filtered(rest.members, |id: Seq<char>, member: GroupMemberView| classic_barrier::has_joined(rest, member));
    assert(rest.members.contains_key(x));
    assert(some.contains_key(x));
    assert(some.dom().subset_of(g.members.dom()));
    vstd::set_lib::lemma_len_subset(some.dom(), g.members.dom());
    sorted_map::finite_sets_are_listed::<String>(some.dom());
    let ids = classic_groups::ordered(some.dom());
    assert(ids.to_set().contains(x));
    assert(ids.len() > 0);
    assert(ids.to_set().contains(ids[0]));
}

} // verus!
