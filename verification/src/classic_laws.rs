//! What holds of classic groups whatever their members do.

use crate::classic_barrier;
use crate::classic_groups;
use crate::classic_groups::MemoryGroupView;
use crate::classic_join;
use crate::classic_join::{ClassicGroupsView, JoinRequestView};
use crate::classic_members;
use crate::error::ControlErrorView;
use crate::groups;
use crate::groups::{GroupAssignmentView, GroupMemberIdentityView, GroupMemberView, GroupProtocolView};
use crate::sorted_map;
use crate::time;
use vstd::prelude::*;

verus! {

/// Whether every member stands under its own id.
pub open spec fn keyed(members: Map<Seq<char>, GroupMemberView>) -> bool {
    forall|id: Seq<char>| #[trigger] members.contains_key(id) ==> members[id].member_id == id
}

/// Whether no two members hold the same instance id.
pub open spec fn instances_unique(members: Map<Seq<char>, GroupMemberView>) -> bool {
    forall|a: Seq<char>, b: Seq<char>|
        #![trigger members.contains_key(a), members.contains_key(b)]
        members.contains_key(a) && members.contains_key(b) && members[a].group_instance_id is Some
            && members[a].group_instance_id == members[b].group_instance_id ==> a == b
}

/// Whether every member offers the protocol.
pub open spec fn all_offer(members: Map<Seq<char>, GroupMemberView>, name: Seq<char>) -> bool {
    forall|id: Seq<char>| #[trigger] members.contains_key(id) ==> groups::offers(members[id].protocols, name)
}

/// What holds of every group: members stand under their own ids, no instance id is held twice, a
/// rebalance under way has an id, and there is a protocol that every member offers.
pub open spec fn sound(g: MemoryGroupView) -> bool {
    &&& g.members.dom().finite()
    &&& keyed(g.members)
    &&& instances_unique(g.members)
    &&& g.rebalance_pending ==> g.rebalance_id is Some
    &&& exists|name: Seq<char>| all_offer(g.members, name)
}

/// Whether every group is sound.
pub open spec fn all_sound(s: ClassicGroupsView) -> bool {
    forall|id: Seq<char>| #[trigger] s.groups.contains_key(id) ==> sound(s.groups[id])
}

proof fn fewer_is_sound(g: MemoryGroupView, h: MemoryGroupView)
    requires
        sound(g),
        h.members.submap_of(g.members),
        h.rebalance_pending ==> h.rebalance_id is Some,
    ensures
        sound(h),
{
    let name = choose|name: Seq<char>| all_offer(g.members, name);
    assert(h.members.dom().subset_of(g.members.dom()));
    vstd::set_lib::lemma_len_subset(h.members.dom(), g.members.dom());
    assert forall|id: Seq<char>| #[trigger] h.members.contains_key(id) implies g.members.contains_key(id) && h.members[id] == g.members[id] by {
        assert(h.members.dom().contains(id));
    }
    assert(all_offer(h.members, name));
}

proof fn spoken_is_sound(g: MemoryGroupView, name: Seq<char>)
    requires
        sound(g),
    ensures
        sound(classic_groups::speaking(g, name)),
{
    let h = classic_groups::speaking(g, name);
    assert(h.members.dom() =~= g.members.dom());
    let common = choose|common: Seq<char>| all_offer(g.members, common);
    assert forall|id: Seq<char>| #[trigger] h.members.contains_key(id) implies g.members.contains_key(id) && h.members[id].member_id
        == g.members[id].member_id && h.members[id].group_instance_id == g.members[id].group_instance_id && h.members[id].protocols
        == g.members[id].protocols by {
        assert(h.members[id] == groups::with_protocol(g.members[id], name));
    }
    assert(all_offer(h.members, common));
}

/// Clearing away expired members keeps a group sound.
pub proof fn without_expired_is_sound(g: MemoryGroupView, now: int)
    requires
        sound(g),
    ensures
        sound(classic_groups::without_expired(g, now)),
        sound(classic_join::settled(g, now)),
        sound(classic_members::current(g, now)),
{
    let rest = classic_groups::without_expired(g, now);
    assert(rest.members.submap_of(g.members));
    fewer_is_sound(g, rest);
    fewer_is_sound(rest, classic_join::settled(g, now));
    fewer_is_sound(rest, classic_members::current(g, now));
}

/// The owner of an instance id is the member that holds it.
pub proof fn owner_holds_instance(members: Map<Seq<char>, GroupMemberView>, instance: Seq<char>)
    requires
        members.dom().finite(),
        keyed(members),
    ensures
        match classic_groups::instance_owner(members, instance) {
            Some(id) => members.contains_key(id) && members[id].group_instance_id == Some(instance),
            None => forall|id: Seq<char>| #[trigger] members.contains_key(id) ==> members[id].group_instance_id != Some(instance),
        },
{
    sorted_map::finite_sets_are_listed::<String>(members.dom());
    let ids = classic_groups::ordered(members.dom());
    assert forall|i: int| 0 <= i < ids.len() implies members.contains_key(#[trigger] ids[i]) by {
        assert(ids.contains(ids[i]));
        assert(ids.to_set().contains(ids[i]));
    }
    first_holds_instance(ids, members, instance);
    if classic_groups::instance_owner(members, instance) is None {
        assert forall|id: Seq<char>| #[trigger] members.contains_key(id) implies members[id].group_instance_id != Some(instance) by {
            assert(ids.to_set().contains(id));
            assert(ids.contains(id));
            let i = choose|i: int| 0 <= i < ids.len() && ids[i] == id;
            assert(members[ids[i]].group_instance_id != Some(instance));
        }
    }
}

proof fn first_holds_instance(ids: Seq<Seq<char>>, members: Map<Seq<char>, GroupMemberView>, instance: Seq<char>)
    requires
        keyed(members),
        forall|i: int| 0 <= i < ids.len() ==> members.contains_key(#[trigger] ids[i]),
    ensures
        match classic_groups::first_with_instance(ids, members, instance) {
            Some(id) => members.contains_key(id) && members[id].group_instance_id == Some(instance),
            None => forall|i: int| 0 <= i < ids.len() ==> members[#[trigger] ids[i]].group_instance_id != Some(instance),
        },
    decreases ids.len(),
{
    if ids.len() > 0 {
        assert(members.contains_key(ids[0]));
        let rest = ids.drop_first();
        assert forall|i: int| 0 <= i < rest.len() implies members.contains_key(#[trigger] rest[i]) by {
            assert(rest[i] == ids[i + 1]);
        }
        first_holds_instance(rest, members, instance);
        if classic_groups::first_with_instance(ids, members, instance) is None {
            assert forall|i: int| 0 <= i < ids.len() implies members[#[trigger] ids[i]].group_instance_id != Some(instance) by {
                if i > 0 {
                    assert(rest[i - 1] == ids[i]);
                }
            }
        }
    }
}

/// Whether a member that is about to be seated takes no instance id from another one.
pub open spec fn fits(members: Map<Seq<char>, GroupMemberView>, member: GroupMemberView, replaced: Option<Seq<char>>) -> bool {
    member.group_instance_id is Some ==> forall|id: Seq<char>| #[trigger]
        members.contains_key(id) && members[id].group_instance_id == member.group_instance_id ==> id == member.member_id || Some(id) == replaced
}

proof fn seated_is_sound(g: MemoryGroupView, protocol_type: Seq<char>, member: GroupMemberView, replaced: Option<Seq<char>>, name: Seq<char>)
    requires
        sound(g),
        fits(g.members, member, replaced),
        classic_join::agreed(classic_join::others(g.members, member.member_id, replaced), member.protocols) == Some(name),
    ensures
        sound(classic_join::seated(g, protocol_type, member, replaced, name)),
{
    let id = member.member_id;
    let rest = classic_join::others(g.members, id, replaced);
    assert(rest.dom().subset_of(g.members.dom()));
    vstd::set_lib::lemma_len_subset(rest.dom(), g.members.dom());
    sorted_map::finite_sets_are_listed::<String>(rest.dom());
    groups::selection_is_offered_by_all(classic_groups::member_sets(rest).push(member.protocols));
    classic_join::member_sets_offer(rest, member.protocols, name);
    let kept = match replaced {
        Some(old_id) => g.members.remove(old_id),
        None => g.members,
    };
    let members = kept.insert(id, member);
    assert(members.dom() =~= rest.dom().insert(id));
    assert forall|k: Seq<char>| #[trigger] members.contains_key(k) implies (k == id && members[k] == member) || (k != id && g.members.contains_key(k)
        && members[k] == g.members[k] && rest.contains_key(k) && rest[k] == g.members[k] && Some(k) != replaced) by {}
    assert(all_offer(members, name));
    assert(keyed(members));
    assert(instances_unique(members));
    let vacated = MemoryGroupView { protocol_type, members, ..g };
    assert(sound(vacated));
    spoken_is_sound(vacated, name);
    let h = classic_join::seated(g, protocol_type, member, replaced, name);
    assert(h.members == classic_groups::speaking(vacated, name).members);
    fewer_is_sound(classic_groups::speaking(vacated, name), h);
}

/// The end of a rebalance keeps a group sound.
pub proof fn progressed_is_sound(g: MemoryGroupView, now: int)
    requires
        sound(g),
    ensures
        sound(classic_barrier::progressed(g, now)),
{
    if g.rebalance_pending && classic_barrier::ready(g, now) {
        let members = if classic_barrier::timed_out(g, now) {
            sorted_map::filtered(g.members, |id: Seq<char>, member: GroupMemberView| !classic_barrier::left_behind(g, member))
        } else {
            g.members
        };
        let rest = MemoryGroupView { members, ..g };
        assert(rest.members.submap_of(g.members));
        fewer_is_sound(g, rest);
        let h = classic_barrier::progressed(g, now);
        match groups::selected(classic_groups::member_sets(members)) {
            Some(name) => {
                spoken_is_sound(rest, name);
                assert(h.members == classic_groups::speaking(rest, name).members);
                fewer_is_sound(classic_groups::speaking(rest, name), h);
            },
            None => {
                fewer_is_sound(rest, h);
            },
        }
    }
}

proof fn newcomer_fits(
    g: MemoryGroupView,
    exists_already: bool,
    request: JoinRequestView,
    member: GroupMemberView,
    replaced: Option<Seq<char>>,
    pending: Map<(Seq<char>, Seq<char>), int>,
    fresh: Seq<char>,
)
    requires
        sound(g),
        !exists_already ==> g.members == Map::<Seq<char>, GroupMemberView>::empty(),
        member.group_instance_id == request.group_instance_id,
        classic_join::resolved(if exists_already { Some(g) } else { None }, pending, request, fresh) == Ok::<(Seq<char>, Option<Seq<char>>), ControlErrorView>((member.member_id, replaced)),
    ensures
        fits(g.members, member, replaced),
{
    if let Some(instance) = request.group_instance_id {
        owner_holds_instance(g.members, instance);
        assert forall|id: Seq<char>| #[trigger] g.members.contains_key(id) && g.members[id].group_instance_id == Some(instance)
            implies id == member.member_id || Some(id) == replaced by {
            let owner = classic_groups::instance_owner(g.members, instance);
            assert(owner is Some);
            assert(g.members.contains_key(owner->0));
            assert(owner->0 == id);
        }
    }
}

pub(crate) proof fn new_group_is_sound()
    ensures
        sound(classic_groups::new_group()),
{
    let nobody = Map::<Seq<char>, GroupMemberView>::empty();
    assert(all_offer(nobody, Seq::empty()));
    assert(nobody.dom() =~= Set::empty());
}

pub(crate) proof fn agreement_when_compatible(g: MemoryGroupView, exists_already: bool, request: JoinRequestView, id: Seq<char>, replaced: Option<Seq<char>>)
    requires
        sound(g),
        request.protocols.len() > 0,
        exists_already ==> classic_join::compatible(g, request.protocol_type, groups::offered(request.protocols)),
        !exists_already ==> g.members == Map::<Seq<char>, GroupMemberView>::empty(),
    ensures
        classic_join::agreed(classic_join::others(g.members, id, replaced), groups::offered(request.protocols)) is Some,
{
    let incoming = groups::offered(request.protocols);
    let rest = classic_join::others(g.members, id, replaced);
    assert(rest.submap_of(g.members));
    assert(rest.dom().subset_of(g.members.dom()));
    vstd::set_lib::lemma_len_subset(rest.dom(), g.members.dom());
    sorted_map::finite_sets_are_listed::<String>(rest.dom());
    sorted_map::finite_sets_are_listed::<String>(g.members.dom());
    if !exists_already {
        classic_join::alone_agrees(incoming);
    }
    classic_join::fewer_members_agree(g.members, rest, incoming);
}

/// Joining in one step keeps every group sound.
pub proof fn joined_keeps_sound(s: ClassicGroupsView, request: JoinRequestView, now: int, fresh: Seq<char>)
    requires
        all_sound(s),
    ensures
        all_sound(classic_join::joined(s, request, now, fresh).0),
{
    let gid = request.group_id;
    if s.groups.contains_key(gid) {
        without_expired_is_sound(s.groups[gid], now);
    }
    let c = classic_join::cleared(s, gid, now);
    assert(all_sound(c));
    new_group_is_sound();
    let group = c.groups.get(gid);
    let requested = request.requested_member_id;
    let incoming = groups::offered(request.protocols);
    let shut = group is Some && !classic_join::compatible(group->0, request.protocol_type, incoming);
    let handshake = request.group_instance_id is None && requested.len() == 0 && request.api_version >= 4;
    if classic_join::complete(request) && !shut && !handshake {
        if let Ok((id, replaced)) = classic_join::resolved(group, c.pending_members, request, fresh) {
            let existing = requested.len() > 0 && classic_join::is_member(group, requested);
            let g = if group is Some {
                group->0
            } else {
                classic_groups::new_group()
            };
            let h = MemoryGroupView { empty_since: None, ..g };
            let name = classic_join::agreed(classic_join::others(g.members, id, replaced), incoming)->0;
            let member = classic_join::newcomer(request, id, name, request.session_timeout_ms, now, None);
            agreement_when_compatible(g, group is Some, request, id, replaced);
            newcomer_fits(g, group is Some, request, member, replaced, c.pending_members, fresh);
            seated_is_sound(h, request.protocol_type, member, replaced, name);
            let full = classic_join::seated(h, request.protocol_type, member, replaced, name);
            let after = classic_join::seating(g, request, id, replaced, existing, now).0;
            assert(after.members == full.members);
            fewer_is_sound(full, after);
        }
    }
}

/// Joining through the barrier keeps every group sound.
pub proof fn begun_keeps_sound(s: ClassicGroupsView, request: JoinRequestView, now: int, fresh: Seq<char>, fresh_rebalance: u128)
    requires
        all_sound(s),
    ensures
        all_sound(classic_barrier::begun(s, request, now, fresh, fresh_rebalance).0),
{
    let gid = request.group_id;
    if s.groups.contains_key(gid) {
        without_expired_is_sound(s.groups[gid], now);
    }
    let c = classic_barrier::swept(s, gid, now);
    assert(all_sound(c));
    new_group_is_sound();
    let group = c.groups.get(gid);
    let requested = request.requested_member_id;
    let incoming = groups::offered(request.protocols);
    let shut = group is Some && !classic_join::compatible(group->0, request.protocol_type, incoming);
    let handshake = request.group_instance_id is None && requested.len() == 0 && request.api_version >= 4;
    if classic_barrier::complete(request) && !shut && !handshake {
        if let Ok((id, replaced)) = classic_join::resolved(group, c.pending_members, request, fresh) {
            let existing = requested.len() > 0 && classic_join::is_member(group, requested);
            let expired = s.groups.contains_key(gid) && classic_groups::some_expired(s.groups[gid], now);
            let g = if group is Some {
                group->0
            } else {
                classic_groups::new_group()
            };
            agreement_when_compatible(g, group is Some, request, id, replaced);
            beginning_is_sound(g, group is Some, request, id, replaced, existing, expired, now, fresh, fresh_rebalance, c.pending_members);
        }
    }
}

proof fn beginning_is_sound(
    g: MemoryGroupView,
    exists_already: bool,
    request: JoinRequestView,
    id: Seq<char>,
    replaced: Option<Seq<char>>,
    existing: bool,
    expired: bool,
    now: int,
    fresh: Seq<char>,
    fresh_rebalance: u128,
    pending: Map<(Seq<char>, Seq<char>), int>,
)
    requires
        sound(g),
        !exists_already ==> g.members == Map::<Seq<char>, GroupMemberView>::empty(),
        classic_join::agreed(classic_join::others(g.members, id, replaced), groups::offered(request.protocols)) is Some,
        classic_join::resolved(if exists_already { Some(g) } else { None }, pending, request, fresh) == Ok::<(Seq<char>, Option<Seq<char>>), ControlErrorView>((id, replaced)),
    ensures
        sound(classic_barrier::beginning(g, request, id, replaced, existing, expired, now, fresh_rebalance).0),
{
    let incoming = groups::offered(request.protocols);
    let name = classic_join::agreed(classic_join::others(g.members, id, replaced), incoming)->0;
    let previous = classic_join::predecessor(g, id, replaced, existing);
    let was_empty = g.members.dom().len() == 0;
    let was_stable = !g.rebalance_pending && !was_empty && g.assignments.dom().len() == g.members.dom().len();
    let was_completing = !g.rebalance_pending && !was_empty && !was_stable;
    let protocol_changed = g.protocol_name.len() > 0 && g.protocol_name != name;
    let unchanged = previous is Some && previous->0.protocols == incoming && !protocol_changed;
    let no_rebalance = !expired && ((replaced is Some && was_stable && !protocol_changed) || (replaced is None && unchanged
        && was_completing) || (replaced is None && unchanged && was_stable && g.leader != id));
    let active = if g.rebalance_pending { g.rebalance_id } else if no_rebalance { None } else { Some(fresh_rebalance) };
    let carried = if active is None && previous is Some { previous->0.joined_rebalance_id } else { active };
    let seat = classic_join::seated(g, request.protocol_type, classic_join::newcomer(request, id, name, request.rebalance_timeout_ms, now, carried), replaced, name);
    let after = classic_barrier::beginning(g, request, id, replaced, existing, expired, now, fresh_rebalance).0;
    let member = classic_join::newcomer(request, id, name, request.rebalance_timeout_ms, now, carried);
    newcomer_fits(g, exists_already, request, member, replaced, pending, fresh);
    seated_is_sound(g, request.protocol_type, member, replaced, name);
    if no_rebalance {
        assert(after == led_by(seat, id));
        fewer_is_sound(seat, after);
    } else {
        let waiting = waiting_for(seat, now, request, fresh_rebalance, was_empty);
        fewer_is_sound(seat, waiting);
        progressed_is_sound(waiting, now);
        assert(after == classic_barrier::progressed(waiting, now));
    }
}

spec fn led_by(full: MemoryGroupView, id: Seq<char>) -> MemoryGroupView {
    if full.leader.len() == 0 {
        MemoryGroupView { leader: id, ..full }
    } else {
        full
    }
}

spec fn waiting_for(full: MemoryGroupView, now: int, request: JoinRequestView, fresh_rebalance: u128, was_empty: bool) -> MemoryGroupView {
    if !full.rebalance_pending {
        classic_barrier::gathering(full, fresh_rebalance, now, was_empty, request.initial_rebalance_delay_ms)
    } else if full.initial_rebalance_deadline is Some {
        classic_barrier::with_later_start(classic_barrier::with_later_deadline(full), now, request.initial_rebalance_delay_ms)
    } else {
        classic_barrier::with_later_deadline(full)
    }
}

/// Polling a rebalance keeps every group sound.
pub proof fn polled_keeps_sound(
    s: ClassicGroupsView,
    group_id: Seq<char>,
    member_id: Seq<char>,
    instance: Option<Seq<char>>,
    rebalance_id: u128,
    now: int,
)
    requires
        all_sound(s),
    ensures
        all_sound(classic_barrier::polled(s, group_id, member_id, instance, rebalance_id, now).0),
{
    if s.groups.contains_key(group_id) {
        let g = s.groups[group_id];
        without_expired_is_sound(g, now);
        progressed_is_sound(classic_groups::without_expired(g, now), now);
    }
}

/// Checking, syncing and heartbeats keep every group sound.
pub proof fn checked_keeps_sound(
    s: ClassicGroupsView,
    group_id: Seq<char>,
    generation_id: i32,
    member_id: Seq<char>,
    instance: Option<Seq<char>>,
    list: Seq<GroupAssignmentView>,
    now: int,
)
    requires
        all_sound(s),
    ensures
        all_sound(classic_members::checked(s, group_id, generation_id, member_id, instance, now).0),
        all_sound(classic_members::synced(s, group_id, generation_id, member_id, instance, list, now).0),
        all_sound(classic_members::refreshed(s, group_id, generation_id, member_id, instance, now).0),
{
    if s.groups.contains_key(group_id) {
        without_expired_is_sound(s.groups[group_id], now);
        let c = classic_members::checked(s, group_id, generation_id, member_id, instance, now).0;
        let verdict = classic_members::checked(s, group_id, generation_id, member_id, instance, now).1;
        if verdict is Ok {
            let g = c.groups[group_id];
            let after = classic_members::synced(s, group_id, generation_id, member_id, instance, list, now).0.groups[group_id];
            fewer_is_sound(g, after);
            let h = classic_members::refreshed(s, group_id, generation_id, member_id, instance, now).0.groups[group_id];
            assert(g.members.contains_key(member_id));
            assert(h.members.dom() =~= g.members.dom());
            let name = choose|name: Seq<char>| all_offer(g.members, name);
            assert forall|id: Seq<char>| #[trigger] h.members.contains_key(id) implies g.members.contains_key(id)
                && h.members[id].member_id == g.members[id].member_id
                && h.members[id].group_instance_id == g.members[id].group_instance_id && h.members[id].protocols == g.members[id].protocols by {}
            assert(all_offer(h.members, name));
            assert(sound(h));
        }
    }
}

/// Leaving keeps every group sound.
pub proof fn left_keeps_sound(s: ClassicGroupsView, group_id: Seq<char>, identities: Seq<GroupMemberIdentityView>, now: int)
    requires
        all_sound(s),
    ensures
        all_sound(classic_members::left(s, group_id, identities, now).0),
{
    if s.groups.contains_key(group_id) {
        let g = s.groups[group_id];
        let members = sorted_map::filtered(g.members, |id: Seq<char>, member: GroupMemberView| !classic_members::leaves(g.members, identities, id));
        let rest = MemoryGroupView {
            members,
            assignments: sorted_map::filtered(g.assignments, |id: Seq<char>, bytes: Seq<u8>| !classic_members::leaves(g.members, identities, id)),
            ..g
        };
        assert(rest.members.submap_of(g.members));
        fewer_is_sound(g, rest);
        progressed_is_sound(rest, now);
        let h = classic_members::abandoned(g, identities, now);
        match groups::selected(classic_groups::member_sets(rest.members)) {
            Some(name) => {
                spoken_is_sound(rest, name);
                fewer_is_sound(classic_groups::speaking(rest, name), classic_groups::next_generation(classic_groups::speaking(rest, name)));
            },
            None => {
                fewer_is_sound(rest, classic_groups::next_generation(rest));
            },
        }
        if rest.members == Map::<Seq<char>, GroupMemberView>::empty() && (exists|id: Seq<char>| classic_members::leaves(g.members, identities, id)) {
            fewer_is_sound(rest, h);
        }
    }
}

/// A rebalance that ends advances the generation by one and leaves no rebalance under way; one that
/// does not end leaves the group as it is.
pub proof fn one_generation_per_rebalance(g: MemoryGroupView, now: int)
    requires
        g.generation_id < i32::MAX,
    ensures
        g.rebalance_pending && classic_barrier::ready(g, now) ==> {
            &&& classic_barrier::progressed(g, now).generation_id == g.generation_id + 1
            &&& !classic_barrier::progressed(g, now).rebalance_pending
            &&& classic_barrier::progressed(classic_barrier::progressed(g, now), now) == classic_barrier::progressed(g, now)
        },
        !(g.rebalance_pending && classic_barrier::ready(g, now)) ==> classic_barrier::progressed(g, now) == g,
{
}

/// A rebalance that runs out of time removes the members without an instance id that have not
/// joined it, and no others.
pub proof fn timeout_removes_only_dynamic_absentees(g: MemoryGroupView, now: int, id: Seq<char>)
    requires
        g.rebalance_pending,
        classic_barrier::timed_out(g, now),
    ensures
        classic_barrier::progressed(g, now).members.contains_key(id) <==> g.members.contains_key(id) && (
        g.members[id].group_instance_id is Some || classic_barrier::has_joined(g, g.members[id])),
{
}

/// A member that was turned away because the group is full keeps the member id that it was given.
pub proof fn full_group_keeps_pending_ids(
    s: ClassicGroupsView,
    request: JoinRequestView,
    now: int,
    fresh: Seq<char>,
    fresh_rebalance: u128,
    id: Seq<char>,
)
    requires
        s.pending_members.contains_key((request.group_id, id)),
        s.pending_members[(request.group_id, id)] > now,
        classic_barrier::begun(s, request, now, fresh, fresh_rebalance).1 is Err,
        classic_barrier::begun(s, request, now, fresh, fresh_rebalance).1->Err_0 is GroupMaxSizeReached,
    ensures
        classic_barrier::begun(s, request, now, fresh, fresh_rebalance).0.pending_members.contains_key((request.group_id, id)),
{
}

/// A member that comes back in time under the member id that it was given is let in as soon as the
/// group has a seat left, and the id is used up.
pub proof fn pending_ids_are_accepted_when_there_is_room(
    s: ClassicGroupsView,
    request: JoinRequestView,
    now: int,
    fresh: Seq<char>,
    fresh_rebalance: u128,
)
    requires
        classic_barrier::complete(request),
        request.group_instance_id is None,
        request.requested_member_id.len() > 0,
        s.pending_members.contains_key((request.group_id, request.requested_member_id)),
        s.pending_members[(request.group_id, request.requested_member_id)] > now,
        ({
            let group = classic_barrier::swept(s, request.group_id, now).groups.get(request.group_id);
            &&& group is Some ==> classic_join::compatible(group->0, request.protocol_type, groups::offered(request.protocols))
            &&& !classic_join::is_member(group, request.requested_member_id)
            &&& !classic_barrier::full_house(group, request.max_size)
        }),
    ensures
        ({
            let (after, answer) = classic_barrier::begun(s, request, now, fresh, fresh_rebalance);
            let id = request.requested_member_id;
            &&& answer is Ok
            &&& answer->Ok_0.member_id == id
            &&& after.groups[request.group_id].members.contains_key(id)
            &&& !after.pending_members.contains_key((request.group_id, id))
        }),
{
}

proof fn compatible_later(g: MemoryGroupView, now: int, protocol_type: Seq<char>, incoming: Seq<GroupProtocolView>)
    requires
        sound(g),
        classic_join::compatible(g, protocol_type, incoming),
    ensures
        classic_join::compatible(classic_join::settled(g, now), protocol_type, incoming),
{
    let h = classic_join::settled(g, now);
    without_expired_is_sound(g, now);
    assert(h.members.submap_of(g.members));
    sorted_map::finite_sets_are_listed::<String>(h.members.dom());
    sorted_map::finite_sets_are_listed::<String>(g.members.dom());
    classic_join::fewer_members_agree(g.members, h.members, incoming);
}

/// A member that was told to join again under a new member id is let in when it does so in time.
pub proof fn handed_out_member_id_is_accepted(
    s: ClassicGroupsView,
    request: JoinRequestView,
    now: int,
    fresh: Seq<char>,
    later: int,
    other: Seq<char>,
)
    requires
        all_sound(s),
        classic_join::complete(request),
        classic_join::joined(s, request, now, fresh).1 == Err::<crate::groups::JoinGroupResultView, ControlErrorView>(
            ControlErrorView::MemberIdRequired { member_id: classic_join::made_member_id(request.client_id, fresh) },
        ),
        later < time::instant_after(now, request.session_timeout_ms as int),
    ensures
        ({
            let id = classic_join::made_member_id(request.client_id, fresh);
            let again = JoinRequestView { requested_member_id: id, ..request };
            let (after, answer) = classic_join::joined(classic_join::joined(s, request, now, fresh).0, again, later, other);
            &&& answer is Ok
            &&& answer->Ok_0.member_id == id
            &&& after.groups[request.group_id].members.contains_key(id)
        }),
{
    reveal_strlit("-");
    let gid = request.group_id;
    let id = classic_join::made_member_id(request.client_id, fresh);
    let again = JoinRequestView { requested_member_id: id, ..request };
    let t = classic_join::joined(s, request, now, fresh).0;
    joined_keeps_sound(s, request, now, fresh);
    let c = classic_join::cleared(s, gid, now);
    assert(t.groups == c.groups);
    assert(t.pending_members.contains_key((gid, id)));
    assert(t.pending_members[(gid, id)] > later);
    let d = classic_join::cleared(t, gid, later);
    assert(d.pending_members.contains_key((gid, id)));
    if t.groups.contains_key(gid) {
        compatible_later(t.groups[gid], later, request.protocol_type, groups::offered(request.protocols));
    }
    assert(id.len() > 0);
    let group = d.groups.get(gid);
    assert(classic_join::resolved(group, d.pending_members, again, other) == Ok::<(Seq<char>, Option<Seq<char>>), ControlErrorView>((id, None)));
    if classic_join::is_member(group, id) {
        assert(t.groups[gid].members.contains_key(id));
    }
}

/// A member that takes over the seat of a static member, when that changes nothing else, keeps the
/// generation and the assignment of the seat; the old identity is fenced.
pub proof fn static_replacement_keeps_the_seat(g: MemoryGroupView, request: JoinRequestView, id: Seq<char>, old_id: Seq<char>, now: int)
    requires
        sound(g),
        request.protocols.len() > 0,
        request.group_instance_id is Some,
        classic_groups::instance_owner(g.members, request.group_instance_id->0) == Some(old_id),
        !g.members.contains_key(id),
        classic_join::compatible(g, request.protocol_type, groups::offered(request.protocols)),
        classic_join::protocol_names(g.members[old_id].protocols) == classic_join::protocol_names(groups::offered(request.protocols)),
        g.members[old_id].subscribed_topics == request.subscribed_topics,
        g.protocol_name.len() == 0 || Some(g.protocol_name) == classic_join::agreed(
            classic_join::others(g.members, id, Some(old_id)),
            groups::offered(request.protocols),
        ),
    ensures
        ({
            let after = classic_join::seating(g, request, id, Some(old_id), false, now).0;
            &&& after.generation_id == g.generation_id
            &&& g.assignments.contains_key(old_id) ==> after.assignments.contains_key(id) && after.assignments[id] == g.assignments[old_id]
            &&& forall|other: Seq<char>| other != id && other != old_id ==> after.assignments.get(other) == g.assignments.get(other)
            &&& !after.members.contains_key(old_id)
            &&& classic_groups::identity_error(after.members, request.group_id, old_id, request.group_instance_id) == Some(
                ControlErrorView::FencedInstanceId { group: request.group_id, instance_id: request.group_instance_id->0 },
            )
        }),
{
    let instance = request.group_instance_id->0;
    owner_holds_instance(g.members, instance);
    let incoming = groups::offered(request.protocols);
    agreement_when_compatible(g, true, request, id, Some(old_id));
    let h = MemoryGroupView { empty_since: None, ..g };
    let name = classic_join::agreed(classic_join::others(g.members, id, Some(old_id)), incoming)->0;
    let member = classic_join::newcomer(request, id, name, request.session_timeout_ms, now, None);
    assert(fits(h.members, member, Some(old_id))) by {
        assert forall|k: Seq<char>| #[trigger] h.members.contains_key(k)
            && h.members[k].group_instance_id == member.group_instance_id implies k == member.member_id || Some(k) == Some(old_id) by {
            assert(g.members.contains_key(old_id));
        }
    }
    seated_is_sound(h, request.protocol_type, member, Some(old_id), name);
    let full = classic_join::seated(h, request.protocol_type, member, Some(old_id), name);
    let after = classic_join::seating(g, request, id, Some(old_id), false, now).0;
    assert(after.members == full.members);
    owner_holds_instance(after.members, instance);
    assert(full.members.contains_key(id));
    assert(full.members[id] == groups::with_protocol(member, name));
    assert(full.members[id].group_instance_id == Some(instance));
}

/// The leader's assignment for a member is what the member's next sync gives back.
pub proof fn sync_gives_back_the_assignment(
    s: ClassicGroupsView,
    group_id: Seq<char>,
    generation_id: i32,
    leader: Seq<char>,
    list: Seq<GroupAssignmentView>,
    i: int,
    now: int,
)
    requires
        classic_members::synced(s, group_id, generation_id, leader, None, list, now).1 is Ok,
        0 <= i < list.len(),
        forall|j: int| i < j < list.len() ==> (#[trigger] list[j]).member_id != list[i].member_id,
        classic_members::synced(s, group_id, generation_id, leader, None, list, now).0.groups[group_id].members.contains_key(list[i].member_id),
    ensures
        ({
            let t = classic_members::synced(s, group_id, generation_id, leader, None, list, now).0;
            classic_members::synced(t, group_id, generation_id, list[i].member_id, None, Seq::empty(), now).1 == Ok::<Seq<u8>, ControlErrorView>(list[i].assignment)
        }),
{
    let c = classic_members::checked(s, group_id, generation_id, leader, None, now).0;
    let g = c.groups[group_id];
    assert(s.groups.contains_key(group_id));
    let before = s.groups[group_id];
    last_assignment_counts(g.assignments, g.members, list, i);
    let t = classic_members::synced(s, group_id, generation_id, leader, None, list, now).0;
    let h = t.groups[group_id];
    assert(h.members == g.members);
    assert(!classic_groups::some_expired(h, now)) by {
        if classic_groups::some_expired(h, now) {
            let id = choose|id: Seq<char>| #[trigger] h.members.contains_key(id) && classic_groups::session_over(h, h.members[id], now);
            assert(before.members.contains_key(id));
            assert(classic_groups::session_over(before, before.members[id], now));
        }
    }
    let again = classic_groups::without_expired(h, now);
    assert(again.members =~= h.members) by {
        assert forall|id: Seq<char>| #[trigger] h.members.contains_key(id) implies !classic_groups::session_over(h, h.members[id], now) by {}
    }
    assert(again.assignments =~= h.assignments) by {
        assert forall|id: Seq<char>| #[trigger] h.assignments.contains_key(id) implies !(h.members.contains_key(id)
            && classic_groups::session_over(h, h.members[id], now)) by {}
    }
}

proof fn last_assignment_counts(
    assignments: Map<Seq<char>, Seq<u8>>,
    members: Map<Seq<char>, GroupMemberView>,
    list: Seq<GroupAssignmentView>,
    i: int,
)
    requires
        0 <= i < list.len(),
        members.contains_key(list[i].member_id),
        forall|j: int| i < j < list.len() ==> (#[trigger] list[j]).member_id != list[i].member_id,
    ensures
        classic_members::assigned(assignments, members, list).contains_key(list[i].member_id),
        classic_members::assigned(assignments, members, list)[list[i].member_id] == list[i].assignment,
    decreases list.len(),
{
    if i < list.len() - 1 {
        let rest = list.drop_last();
        assert(rest[i] == list[i]);
        assert forall|j: int| i < j < rest.len() implies (#[trigger] rest[j]).member_id != rest[i].member_id by {
            assert(list[j].member_id != list[i].member_id);
        }
        last_assignment_counts(assignments, members, rest, i);
        assert(list.last() == list[list.len() - 1]);
    }
}

} // verus!
