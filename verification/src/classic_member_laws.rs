//! What the members of classic groups can count on.

use crate::classic_groups;
use crate::classic_groups::MemoryGroupView;
use crate::classic_join::ClassicGroupsView;
use crate::classic_laws;
use crate::classic_members;
use crate::error::ControlErrorView;
use crate::groups::{GroupAssignmentView, GroupMemberIdentityView, GroupMemberView, LeaveGroupMemberError};
use crate::sorted_map;
use vstd::prelude::*;

verus! {

/// Whether a member has not been heard of for as long as its session lasts. One that has joined the
/// rebalance under way waits, and need not be heard of.
pub open spec fn is_silent(g: MemoryGroupView, member: GroupMemberView, now: int) -> bool {
    &&& member.last_heartbeat + member.session_timeout_ms * 1_000_000 <= now
    &&& !g.rebalance_pending || member.joined_rebalance_id != g.rebalance_id
}

/// Whether a member of a group is silent.
pub open spec fn some_are_silent(g: MemoryGroupView, now: int) -> bool {
    exists|id: Seq<char>| #[trigger] g.members.contains_key(id) && is_silent(g, g.members[id], now)
}

/// Whether a group has a member of some id, under the instance id that it gives, if any.
pub open spec fn knows(g: MemoryGroupView, id: Seq<char>, instance: Option<Seq<char>>) -> bool {
    g.members.contains_key(id) && (instance is Some ==> g.members[id].group_instance_id == instance)
}

pub(crate) proof fn silence_ends_sessions(g: MemoryGroupView, now: int)
    requires
        i128::MIN <= now < i128::MAX,
    ensures
        forall|member: GroupMemberView| #[trigger] classic_groups::session_over(g, member, now) == is_silent(g, member, now),
        classic_groups::some_expired(g, now) == some_are_silent(g, now),
{
    assert forall|member: GroupMemberView| #[trigger] classic_groups::session_over(g, member, now) == is_silent(g, member, now) by {
        assert(member.session_timeout_ms as int * 1_000_000 == member.session_timeout_ms * 1_000_000);
    }
    if classic_groups::some_expired(g, now) {
        let id = choose|id: Seq<char>| #[trigger] g.members.contains_key(id) && classic_groups::session_over(g, g.members[id], now);
        assert(is_silent(g, g.members[id], now));
    }
    if some_are_silent(g, now) {
        let id = choose|id: Seq<char>| #[trigger] g.members.contains_key(id) && is_silent(g, g.members[id], now);
        assert(classic_groups::session_over(g, g.members[id], now));
    }
}

proof fn identities_are_checked(members: Map<Seq<char>, GroupMemberView>, group_id: Seq<char>, id: Seq<char>, instance: Option<Seq<char>>)
    requires
        members.dom().finite(),
        classic_laws::keyed(members),
        classic_laws::instances_unique(members),
    ensures
        classic_groups::identity_error(members, group_id, id, instance) is None <==> members.contains_key(id) && (instance is Some
            ==> members[id].group_instance_id == instance),
        forall|other: Seq<char>|
            #[trigger] members.contains_key(other) && instance is Some && members[other].group_instance_id == instance && other != id
                ==> classic_groups::identity_error(members, group_id, id, instance) == Some(
                ControlErrorView::FencedInstanceId { group: group_id, instance_id: instance->0 },
            ),
{
    if instance is Some {
        classic_laws::owner_holds_instance(members, instance->0);
    }
}

/// What a heartbeat does. While a rebalance is under way, it tells the member so. Otherwise those that
/// were silent lose their seats, and then a new generation begins, without assignments; the heartbeat is
/// accepted just where it names the generation and a member that is left, under its instance id; and
/// then it begins the member's session anew and changes nothing else.
pub proof fn heartbeats_keep_seats(
    s: ClassicGroupsView,
    group_id: Seq<char>,
    generation_id: i32,
    id: Seq<char>,
    instance: Option<Seq<char>>,
    now: int,
    other: Seq<char>,
)
    requires
        i128::MIN <= now < i128::MAX,
        s.groups.contains_key(group_id),
        classic_laws::sound(s.groups[group_id]),
        s.groups[group_id].generation_id < i32::MAX,
    ensures
        ({
            let (after, answer) = classic_members::refreshed(s, group_id, generation_id, id, instance, now);
            let g = s.groups[group_id];
            let h = after.groups[group_id];
            &&& g.rebalance_pending ==> answer == Err::<(), ControlErrorView>(ControlErrorView::RebalanceInProgress(group_id)) && after == s
            &&& !g.rebalance_pending ==> {
                &&& h.members.contains_key(other) <==> g.members.contains_key(other) && !is_silent(g, g.members[other], now)
                &&& h.generation_id == if some_are_silent(g, now) {
                    g.generation_id + 1
                } else {
                    g.generation_id as int
                }
                &&& some_are_silent(g, now) ==> !h.assignments.contains_key(other)
                &&& !some_are_silent(g, now) ==> h.assignments == g.assignments && h.leader == g.leader
                &&& answer is Ok <==> generation_id == h.generation_id && knows(h, id, instance)
                &&& generation_id != h.generation_id ==> answer == Err::<(), ControlErrorView>(
                    ControlErrorView::IllegalGeneration { group: group_id, expected: h.generation_id, actual: generation_id },
                )
                &&& generation_id == h.generation_id && h.members.contains_key(other) && instance is Some
                    && h.members[other].group_instance_id == instance && other != id ==> answer == Err::<(), ControlErrorView>(
                    ControlErrorView::FencedInstanceId { group: group_id, instance_id: instance->0 },
                )
                &&& answer is Ok ==> h.members[id] == (GroupMemberView { last_heartbeat: now, ..g.members[id] })
                &&& h.members.contains_key(other) && (other != id || answer is Err) ==> h.members[other] == g.members[other]
            }
            &&& other != group_id ==> after.groups.contains_key(other) == s.groups.contains_key(other) && (s.groups.contains_key(other)
                ==> after.groups[other] == s.groups[other])
        }),
{
    let g = s.groups[group_id];
    silence_ends_sessions(g, now);
    classic_laws::without_expired_is_sound(g, now);
    let c = classic_members::current(g, now);
    identities_are_checked(c.members, group_id, id, instance);
    if !some_are_silent(g, now) {
        assert forall|x: Seq<char>| #[trigger] g.members.contains_key(x) implies !classic_groups::session_over(g, g.members[x], now) by {
            assert(!is_silent(g, g.members[x], now));
        }
        assert(classic_groups::without_expired(g, now).assignments =~= g.assignments);
    }
}

/// A member that is heard of in time keeps its seat: after a heartbeat it is not silent until its session
/// has gone by.
pub proof fn sessions_last_from_the_heartbeat(
    s: ClassicGroupsView,
    group_id: Seq<char>,
    generation_id: i32,
    id: Seq<char>,
    now: int,
    later: int,
)
    requires
        i128::MIN <= now <= later < i128::MAX,
        s.groups.contains_key(group_id),
        classic_laws::sound(s.groups[group_id]),
        s.groups[group_id].generation_id < i32::MAX - 1,
        classic_members::refreshed(s, group_id, generation_id, id, None, now).1 is Ok,
    ensures
        ({
            let after = classic_members::refreshed(s, group_id, generation_id, id, None, now).0;
            let then = classic_members::checked(after, group_id, generation_id, id, None, later).0;
            then.groups[group_id].members.contains_key(id) <==> later < now + s.groups[group_id].members[id].session_timeout_ms
                * 1_000_000
        }),
{
    let after = classic_members::refreshed(s, group_id, generation_id, id, None, now).0;
    heartbeats_keep_seats(s, group_id, generation_id, id, None, now, id);
    silence_ends_sessions(after.groups[group_id], later);
}

proof fn assignments_come_from_the_list(
    assignments: Map<Seq<char>, Seq<u8>>,
    members: Map<Seq<char>, GroupMemberView>,
    list: Seq<GroupAssignmentView>,
    x: Seq<char>,
)
    ensures
        ({
            let after = classic_members::assigned(assignments, members, list);
            let named = exists|i: int| 0 <= i < list.len() && (#[trigger] list[i]).member_id == x;
            &&& assignments.contains_key(x) ==> after.contains_key(x)
            &&& named && members.contains_key(x) ==> after.contains_key(x) && exists|i: int|
                0 <= i < list.len() && (#[trigger] list[i]).member_id == x && list[i].assignment == after[x]
            &&& !named || !members.contains_key(x) ==> after.contains_key(x) == assignments.contains_key(x) && (assignments.contains_key(x)
                ==> after[x] == assignments[x])
        }),
    decreases list.len(),
{
    if list.len() > 0 {
        let rest = list.drop_last();
        assignments_come_from_the_list(assignments, members, rest, x);
        let last = list.len() - 1;
        assert(list[last] == list.last());
        assert forall|i: int| 0 <= i < rest.len() implies #[trigger] rest[i] == list[i] by {}
        let after = classic_members::assigned(assignments, members, list);
        let before = classic_members::assigned(assignments, members, rest);
        if members.contains_key(x) && (exists|i: int| 0 <= i < list.len() && (#[trigger] list[i]).member_id == x) {
            if list[last].member_id == x {
                assert(list[last].assignment == after[x]);
            } else {
                let i = choose|i: int| 0 <= i < list.len() && (#[trigger] list[i]).member_id == x;
                assert(rest[i].member_id == x);
                let j = choose|j: int| 0 <= j < rest.len() && (#[trigger] rest[j]).member_id == x && rest[j].assignment == before[x];
                assert(list[j].member_id == x && list[j].assignment == after[x]);
            }
        }
        if !(exists|i: int| 0 <= i < list.len() && (#[trigger] list[i]).member_id == x) {
            if exists|i: int| 0 <= i < rest.len() && (#[trigger] rest[i]).member_id == x {
                let i = choose|i: int| 0 <= i < rest.len() && (#[trigger] rest[i]).member_id == x;
                assert(list[i].member_id == x);
            }
        }
    }
}

/// What a sync hands out: a member gets what is stored for it, or nothing; what is stored for the members
/// that the request names comes from the request, and all else stays. Members alone have assignments
/// stored, and a sync is accepted just where a heartbeat would be.
pub proof fn syncs_hand_out_assignments(
    s: ClassicGroupsView,
    group_id: Seq<char>,
    generation_id: i32,
    id: Seq<char>,
    instance: Option<Seq<char>>,
    list: Seq<GroupAssignmentView>,
    now: int,
    x: Seq<char>,
)
    requires
        i128::MIN <= now < i128::MAX,
        s.groups.contains_key(group_id),
        classic_laws::sound(s.groups[group_id]),
        s.groups[group_id].generation_id < i32::MAX,
        !some_are_silent(s.groups[group_id], now),
    ensures
        ({
            let (after, answer) = classic_members::synced(s, group_id, generation_id, id, instance, list, now);
            let g = s.groups[group_id];
            let h = after.groups[group_id];
            let named = exists|i: int| 0 <= i < list.len() && (#[trigger] list[i]).member_id == x;
            &&& answer is Ok <==> !g.rebalance_pending && generation_id == g.generation_id && knows(g, id, instance)
            &&& h.members == g.members && h.generation_id == g.generation_id
            &&& answer is Ok && h.assignments.contains_key(id) ==> answer->Ok_0 == h.assignments[id]
            &&& answer is Ok && !h.assignments.contains_key(id) ==> answer->Ok_0.len() == 0
            &&& answer is Ok && named && g.members.contains_key(x) ==> h.assignments.contains_key(x) && exists|i: int|
                0 <= i < list.len() && (#[trigger] list[i]).member_id == x && list[i].assignment == h.assignments[x]
            &&& answer is Err || !named || !g.members.contains_key(x) ==> h.assignments.contains_key(x) == g.assignments.contains_key(x) && (
            g.assignments.contains_key(x) ==> h.assignments[x] == g.assignments[x])
        }),
{
    let g = s.groups[group_id];
    if !g.rebalance_pending {
        silence_ends_sessions(g, now);
        assert forall|y: Seq<char>| #[trigger] g.members.contains_key(y) implies !classic_groups::session_over(g, g.members[y], now) by {
            assert(!is_silent(g, g.members[y], now));
        }
        let c = classic_members::current(g, now);
        assert(c.members =~= g.members);
        assert(c.assignments =~= g.assignments);
        identities_are_checked(g.members, group_id, id, instance);
        assignments_come_from_the_list(g.assignments, g.members, list, x);
    }
}

/// Whether a request to leave means a member: by its instance id, beside which the member id is either
/// right or left out; or else by its member id.
pub open spec fn means(identity: GroupMemberIdentityView, id: Seq<char>, member: GroupMemberView) -> bool {
    match identity.group_instance_id {
        Some(instance) => member.group_instance_id == Some(instance) && (identity.member_id.len() == 0 || identity.member_id == id),
        None => identity.member_id.len() > 0 && identity.member_id == id,
    }
}

/// Whether one of the requests to leave means a member.
pub open spec fn is_sent_off(identities: Seq<GroupMemberIdentityView>, id: Seq<char>, member: GroupMemberView) -> bool {
    exists|i: int| 0 <= i < identities.len() && means(#[trigger] identities[i], id, member)
}

proof fn leavers_are_meant(members: Map<Seq<char>, GroupMemberView>, identity: GroupMemberIdentityView)
    requires
        members.dom().finite(),
        classic_laws::keyed(members),
        classic_laws::instances_unique(members),
    ensures
        forall|id: Seq<char>|
            #![trigger members.contains_key(id)]
            #![trigger means(identity, id, members[id])]
            classic_members::leaver(members, identity) == Ok::<Seq<char>, LeaveGroupMemberError>(id) <==> members.contains_key(id) && means(
                identity,
                id,
                members[id],
            ),
        classic_members::leaver(members, identity) is Ok ==> members.contains_key(classic_members::leaver(members, identity)->Ok_0),
{
    if identity.group_instance_id is Some {
        classic_laws::owner_holds_instance(members, identity.group_instance_id->0);
    }
}

/// Who leaves: each request is answered without an error just where it means a member; the members that
/// are meant lose their seats and their assignments, and, outside of a rebalance, the others keep
/// theirs. With the departure of some a new generation begins, without assignments; where nobody is
/// left, the group is empty from then on; where nobody leaves, nothing changes.
pub proof fn leaving_takes_those_that_are_meant(
    s: ClassicGroupsView,
    group_id: Seq<char>,
    identities: Seq<GroupMemberIdentityView>,
    now: int,
    x: Seq<char>,
    i: int,
)
    requires
        s.groups.contains_key(group_id),
        classic_laws::sound(s.groups[group_id]),
        s.groups[group_id].generation_id < i32::MAX,
        0 <= i < identities.len(),
    ensures
        ({
            let (after, answer) = classic_members::left(s, group_id, identities, now);
            let g = s.groups[group_id];
            let h = after.groups[group_id];
            let told = answer->Ok_0[i];
            let some_leave = exists|y: Seq<char>| #[trigger] g.members.contains_key(y) && is_sent_off(identities, y, g.members[y]);
            &&& answer is Ok && answer->Ok_0.len() == identities.len()
            &&& told.identity == identities[i]
            &&& told.error is None <==> exists|y: Seq<char>| #[trigger] g.members.contains_key(y) && means(identities[i], y, g.members[y])
            &&& g.members.contains_key(x) && identities[i].group_instance_id is Some && g.members[x].group_instance_id
                == identities[i].group_instance_id && identities[i].member_id.len() > 0 && identities[i].member_id != x ==> told.error == Some(
                LeaveGroupMemberError::FencedInstanceId,
            )
            &&& g.members.contains_key(x) && is_sent_off(identities, x, g.members[x]) ==> !h.members.contains_key(x)
                && !h.assignments.contains_key(x)
            &&& !g.members.contains_key(x) ==> !h.members.contains_key(x)
            &&& !g.rebalance_pending && g.members.contains_key(x) && !is_sent_off(identities, x, g.members[x]) ==> h.members.contains_key(x)
            &&& !some_leave ==> h.members == g.members && h.generation_id == g.generation_id && (h.assignments.contains_key(x)
                == g.assignments.contains_key(x))
            &&& some_leave && !g.rebalance_pending ==> h.generation_id == g.generation_id + 1 && !h.assignments.contains_key(x)
            &&& some_leave && !g.rebalance_pending && h.members.contains_key(x) && g.leader == x ==> h.leader == x
            &&& some_leave && (forall|y: Seq<char>| #[trigger] g.members.contains_key(y) ==> is_sent_off(identities, y, g.members[y]))
                ==> h.empty_since == Some(now) && h.leader.len() == 0 && h.protocol_name.len() == 0
        }),
{
    let g = s.groups[group_id];
    let h = classic_members::left(s, group_id, identities, now).0.groups[group_id];
    assert forall|y: Seq<char>| #[trigger] classic_members::leaves(g.members, identities, y) == (g.members.contains_key(y) && is_sent_off(
        identities,
        y,
        g.members[y],
    )) by {
        if classic_members::leaves(g.members, identities, y) {
            let j = choose|j: int|
                0 <= j < identities.len() && classic_members::leaver(g.members, #[trigger] identities[j]) == Ok::<Seq<char>, LeaveGroupMemberError>(y);
            leavers_are_meant(g.members, identities[j]);
            assert(g.members.contains_key(y));
            assert(means(identities[j], y, g.members[y]));
        }
        if g.members.contains_key(y) && is_sent_off(identities, y, g.members[y]) {
            let j = choose|j: int| 0 <= j < identities.len() && means(#[trigger] identities[j], y, g.members[y]);
            leavers_are_meant(g.members, identities[j]);
            assert(classic_members::leaver(g.members, identities[j]) == Ok::<Seq<char>, LeaveGroupMemberError>(y));
        }
    }
    leavers_are_meant(g.members, identities[i]);
    if classic_members::leaver(g.members, identities[i]) is Ok {
        let y = classic_members::leaver(g.members, identities[i])->Ok_0;
        assert(g.members.contains_key(y) && means(identities[i], y, g.members[y]));
    }
    if identities[i].group_instance_id is Some {
        classic_laws::owner_holds_instance(g.members, identities[i].group_instance_id->0);
    }
    let rest = MemoryGroupView {
        members: sorted_map::filtered(
            g.members,
            |id: Seq<char>, member: GroupMemberView| !classic_members::leaves(g.members, identities, id),
        ),
        assignments: sorted_map::filtered(
            g.assignments,
            |id: Seq<char>, bytes: Seq<u8>| !classic_members::leaves(g.members, identities, id),
        ),
        ..g
    };
    let some_leave = exists|y: Seq<char>| #[trigger] g.members.contains_key(y) && is_sent_off(identities, y, g.members[y]);
    if some_leave {
        let y = choose|y: Seq<char>| #[trigger] g.members.contains_key(y) && is_sent_off(identities, y, g.members[y]);
        assert(classic_members::leaves(g.members, identities, y));
    } else {
        assert forall|y: Seq<char>| !(#[trigger] classic_members::leaves(g.members, identities, y)) by {
            if g.members.contains_key(y) {
                assert(!is_sent_off(identities, y, g.members[y]));
            }
        }
        assert(rest.members =~= g.members);
    }
    if forall|y: Seq<char>| #[trigger] g.members.contains_key(y) ==> is_sent_off(identities, y, g.members[y]) {
        assert(rest.members =~= Map::<Seq<char>, GroupMemberView>::empty());
    }
    assert(h == classic_members::abandoned(g, identities, now));
}

} // verus!
