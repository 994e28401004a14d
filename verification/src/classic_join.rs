//! Joining a classic group in one step.

use crate::classic_groups;
use crate::classic_groups::{listed_members, protocol_sets, MemoryGroup, MemoryGroupView};
use crate::error;
use crate::error::{ControlError, ControlErrorView};
use crate::groups;
use crate::groups::{
    GroupMember, GroupMemberView, GroupProtocol, GroupProtocolView, JoinGroupResult, JoinGroupResultView,
};
use crate::sorted_map;
use crate::sorted_map::{Duplicate, SortedMap};
use crate::text::{same_text, same_texts};
use crate::time;
use crate::time::Timestamp;
use vstd::prelude::*;

verus! {

/// A member's request to join a group.
#[derive(Debug, Clone, PartialEq, Eq)]
pub struct JoinRequest {
    pub group_id: String,
    pub requested_member_id: String,
    pub group_instance_id: Option<String>,
    pub protocol_type: String,
    pub protocols: Vec<(String, Vec<u8>)>,
    pub client_id: String,
    pub client_host: String,
    pub subscribed_topics: Vec<String>,
    pub session_timeout_ms: i32,
    pub rebalance_timeout_ms: i32,
    pub initial_rebalance_delay_ms: i32,
    pub max_size: i32,
    pub api_version: i16,
}

/// The model of [`JoinRequest`].
pub struct JoinRequestView {
    pub group_id: Seq<char>,
    pub requested_member_id: Seq<char>,
    pub group_instance_id: Option<Seq<char>>,
    pub protocol_type: Seq<char>,
    pub protocols: Seq<(Seq<char>, Seq<u8>)>,
    pub client_id: Seq<char>,
    pub client_host: Seq<char>,
    pub subscribed_topics: Seq<Seq<char>>,
    pub session_timeout_ms: i32,
    pub rebalance_timeout_ms: i32,
    pub initial_rebalance_delay_ms: i32,
    pub max_size: i32,
    pub api_version: i16,
}

impl DeepView for JoinRequest {
    type V = JoinRequestView;

    open spec fn deep_view(&self) -> JoinRequestView {
        JoinRequestView {
            group_id: self.group_id@,
            requested_member_id: self.requested_member_id@,
            group_instance_id: self.group_instance_id.deep_view(),
            protocol_type: self.protocol_type@,
            protocols: self.protocols.deep_view(),
            client_id: self.client_id@,
            client_host: self.client_host@,
            subscribed_topics: self.subscribed_topics.deep_view(),
            session_timeout_ms: self.session_timeout_ms,
            rebalance_timeout_ms: self.rebalance_timeout_ms,
            initial_rebalance_delay_ms: self.initial_rebalance_delay_ms,
            max_size: self.max_size,
            api_version: self.api_version,
        }
    }
}
/// The classic groups, and the member ids that were handed out and not used yet, each with the instant at which it lapses.
pub struct ClassicGroups {
    pub groups: SortedMap<String, MemoryGroup>,
    pub pending_members: SortedMap<(String, String), Timestamp>,
}

/// The model of [`ClassicGroups`].
pub struct ClassicGroupsView {
    pub groups: Map<Seq<char>, MemoryGroupView>,
    pub pending_members: Map<(Seq<char>, Seq<char>), int>,
}

impl DeepView for ClassicGroups {
    type V = ClassicGroupsView;

    open spec fn deep_view(&self) -> ClassicGroupsView {
        ClassicGroupsView {
            groups: self.groups.deep_view(),
            pending_members: self.pending_members.deep_view(),
        }
    }
}

/// The pending member ids without those of the group that have lapsed.
pub open spec fn unlapsed(pending: Map<(Seq<char>, Seq<char>), int>, group_id: Seq<char>, now: int) -> Map<(Seq<char>, Seq<char>), int> {
    sorted_map::filtered(pending, |id: (Seq<char>, Seq<char>), lapses: int| id.0 != group_id || lapses > now)
}

/// A group after expired members have left it: in its next generation where members are left, and
/// without protocol and leader where none is.
pub open spec fn settled(g: MemoryGroupView, now: int) -> MemoryGroupView {
    let rest = classic_groups::without_expired(g, now);
    if !classic_groups::some_expired(g, now) {
        rest
    } else if rest.members == Map::<Seq<char>, GroupMemberView>::empty() {
        MemoryGroupView { protocol_type: Seq::empty(), protocol_name: Seq::empty(), leader: Seq::empty(), ..rest }
    } else {
        classic_groups::next_generation(rest)
    }
}

/// Whether a group can speak with a member that brings these protocols.
pub open spec fn compatible(g: MemoryGroupView, protocol_type: Seq<char>, incoming: Seq<GroupProtocolView>) -> bool {
    &&& g.protocol_type.len() == 0 || g.protocol_type == protocol_type
    &&& groups::selected(classic_groups::member_sets(g.members).push(incoming)) is Some
}

/// A member id made for a client.
pub open spec fn made_member_id(client_id: Seq<char>, fresh: Seq<char>) -> Seq<char> {
    client_id + "-"@ + fresh
}

/// The id under which a member is seated, and the id whose seat it takes over.
pub open spec fn resolved(
    group: Option<MemoryGroupView>,
    pending: Map<(Seq<char>, Seq<char>), int>,
    request: JoinRequestView,
    fresh: Seq<char>,
) -> Result<(Seq<char>, Option<Seq<char>>), ControlErrorView> {
    let requested = request.requested_member_id;
    let unknown = ControlErrorView::GroupMemberNotFound { group: request.group_id, member: requested };
    match request.group_instance_id {
        Some(instance) => {
            let owner = match group {
                Some(g) => classic_groups::instance_owner(g.members, instance),
                None => None,
            };
            if requested.len() == 0 {
                Ok((made_member_id(request.client_id, fresh), owner))
            } else {
                match owner {
                    None => Err(unknown),
                    Some(id) => if id == requested {
                        Ok((id, None))
                    } else {
                        Err(ControlErrorView::FencedInstanceId { group: request.group_id, instance_id: instance })
                    },
                }
            }
        },
        None => if requested.len() == 0 {
            Ok((made_member_id(request.client_id, fresh), None))
        } else if is_member(group, requested) || pending.contains_key((request.group_id, requested)) {
            Ok((requested, None))
        } else {
            Err(unknown)
        },
    }
}

/// Whether the group exists and has the member.
pub open spec fn is_member(group: Option<MemoryGroupView>, id: Seq<char>) -> bool {
    group is Some && group->0.members.contains_key(id)
}

/// The members apart from the one who joins and the one whose seat is taken over.
pub open spec fn others(members: Map<Seq<char>, GroupMemberView>, id: Seq<char>, replaced: Option<Seq<char>>) -> Map<Seq<char>, GroupMemberView> {
    match replaced {
        Some(old_id) => members.remove(old_id).remove(id),
        None => members.remove(id),
    }
}

/// The protocol of a group with a newcomer.
pub open spec fn agreed(others: Map<Seq<char>, GroupMemberView>, incoming: Seq<GroupProtocolView>) -> Option<Seq<char>> {
    groups::selected(classic_groups::member_sets(others).push(incoming))
}

/// A member as it joins.
pub open spec fn newcomer(
    request: JoinRequestView,
    id: Seq<char>,
    name: Seq<char>,
    rebalance_timeout_ms: i32,
    now: int,
    joined: Option<u128>,
) -> GroupMemberView {
    let incoming = groups::offered(request.protocols);
    GroupMemberView {
        member_id: id,
        group_instance_id: request.group_instance_id,
        protocols: incoming,
        protocol_name: name,
        metadata: groups::find_offer(incoming, name)->0.metadata,
        subscribed_topics: request.subscribed_topics,
        client_id: request.client_id,
        client_host: request.client_host,
        rebalance_timeout_ms,
        session_timeout_ms: request.session_timeout_ms,
        last_heartbeat: now,
        joined_rebalance_id: joined,
    }
}

/// A group after a member has taken its seat and the group has agreed on a protocol. A seat that is
/// taken over passes on its assignment and the leadership.
pub open spec fn seated(
    g: MemoryGroupView,
    protocol_type: Seq<char>,
    member: GroupMemberView,
    replaced: Option<Seq<char>>,
    name: Seq<char>,
) -> MemoryGroupView {
    let id = member.member_id;
    let vacated = match replaced {
        Some(old_id) => MemoryGroupView {
            members: g.members.remove(old_id),
            assignments: if g.assignments.contains_key(old_id) {
                g.assignments.remove(old_id).insert(id, g.assignments[old_id])
            } else {
                g.assignments
            },
            leader: if g.leader == old_id {
                id
            } else {
                g.leader
            },
            ..g
        },
        None => g,
    };
    classic_groups::speaking(
        MemoryGroupView { protocol_type, members: vacated.members.insert(id, member), ..vacated },
        name,
    )
}

/// The member that held the seat before.
pub open spec fn predecessor(g: MemoryGroupView, id: Seq<char>, replaced: Option<Seq<char>>, existing: bool) -> Option<GroupMemberView> {
    match replaced {
        Some(old_id) => g.members.get(old_id),
        None => if existing {
            g.members.get(id)
        } else {
            None
        },
    }
}

/// The names in a list of protocols.
pub open spec fn protocol_names(set: Seq<GroupProtocolView>) -> Seq<Seq<char>> {
    Seq::new(set.len(), |i: int| set[i].name)
}

/// The outcome for a member that takes a seat.
pub open spec fn seating(
    g: MemoryGroupView,
    request: JoinRequestView,
    id: Seq<char>,
    replaced: Option<Seq<char>>,
    existing: bool,
    now: int,
) -> (MemoryGroupView, JoinGroupResultView) {
    let incoming = groups::offered(request.protocols);
    let open_group = MemoryGroupView { empty_since: None, ..g };
    let name = agreed(others(g.members, id, replaced), incoming)->0;
    let previous = predecessor(g, id, replaced, existing);
    let protocol_changed = g.protocol_name.len() > 0 && g.protocol_name != name;
    let member_changed = previous is Some && (protocol_names(previous->0.protocols) != protocol_names(incoming)
        || previous->0.subscribed_topics != request.subscribed_topics);
    let rebalance = (previous is None && replaced is None) || member_changed || protocol_changed;
    let full = seated(
        open_group,
        request.protocol_type,
        newcomer(request, id, name, request.session_timeout_ms, now, None),
        replaced,
        name,
    );
    let after = if rebalance {
        classic_groups::next_generation(full)
    } else if full.leader.len() == 0 {
        MemoryGroupView { leader: id, ..full }
    } else {
        full
    };
    (
        after,
        JoinGroupResultView {
            generation_id: after.generation_id,
            protocol_type: after.protocol_type,
            protocol_name: name,
            leader: if replaced == Some(g.leader) && request.api_version < 9 && !rebalance {
                g.leader
            } else {
                after.leader
            },
            member_id: id,
            members: classic_groups::listed(after.members),
            skip_assignment: request.api_version >= 9 && replaced is Some && !rebalance && after.leader == id,
            pending_rebalance: None,
            retry_after_ms: 0,
        },
    )
}

/// The groups after expired ids and members of one group have been cleared away.
pub open spec fn cleared(s: ClassicGroupsView, group_id: Seq<char>, now: int) -> ClassicGroupsView {
    ClassicGroupsView {
        groups: if s.groups.contains_key(group_id) {
            s.groups.insert(group_id, settled(s.groups[group_id], now))
        } else {
            s.groups
        },
        pending_members: unlapsed(s.pending_members, group_id, now),
    }
}

/// Whether a request to join is complete.
pub open spec fn complete(request: JoinRequestView) -> bool {
    request.group_id.len() > 0 && request.protocol_type.len() > 0 && request.protocols.len() > 0 && request.session_timeout_ms > 0
}

/// The groups and the answer after a request to join. `fresh` is the text from which a new member
/// id is made.
pub open spec fn joined(s: ClassicGroupsView, request: JoinRequestView, now: int, fresh: Seq<char>) -> (
    ClassicGroupsView,
    Result<JoinGroupResultView, ControlErrorView>,
) {
    if !complete(request) {
        (s, Err(ControlErrorView::InvalidRequest("group id, protocol type, protocols, and session timeout are required"@)))
    } else {
        let gid = request.group_id;
        let c = cleared(s, gid, now);
        let group = c.groups.get(gid);
        let requested = request.requested_member_id;
        if group is Some && !compatible(group->0, request.protocol_type, groups::offered(request.protocols)) {
            (c, Err(ControlErrorView::InconsistentGroupProtocol(gid)))
        } else if request.group_instance_id is None && requested.len() == 0 && request.api_version >= 4 {
            let id = made_member_id(request.client_id, fresh);
            (
                ClassicGroupsView {
                    pending_members: c.pending_members.insert((gid, id), time::instant_after(now, request.session_timeout_ms as int)),
                    ..c
                },
                Err(ControlErrorView::MemberIdRequired { member_id: id }),
            )
        } else {
            let existing = requested.len() > 0 && is_member(group, requested);
            match resolved(group, c.pending_members, request, fresh) {
                Err(error) => (c, Err(error)),
                Ok((id, replaced)) => {
                    let g = if group is Some {
                        group->0
                    } else {
                        classic_groups::new_group()
                    };
                    let (after, answer) = seating(g, request, id, replaced, existing, now);
                    (
                        ClassicGroupsView {
                            groups: c.groups.insert(gid, after),
                            pending_members: if request.group_instance_id is None && requested.len() > 0 && !existing {
                                c.pending_members.remove((gid, requested))
                            } else {
                                c.pending_members
                            },
                        },
                        Ok(answer),
                    )
                },
            }
        }
    }
}

/// Every member list offers the name exactly when every member does.
pub proof fn member_sets_offer(members: Map<Seq<char>, GroupMemberView>, incoming: Seq<GroupProtocolView>, name: Seq<char>)
    requires
        sorted_map::lists_in_order::<String>(classic_groups::ordered(members.dom()), members.dom()),
    ensures
        groups::offered_by_all(classic_groups::member_sets(members).push(incoming), name) <==> groups::offers(incoming, name)
            && (forall|id: Seq<char>| #[trigger] members.contains_key(id) ==> groups::offers(members[id].protocols, name)),
{
    let ids = classic_groups::ordered(members.dom());
    let sets = classic_groups::member_sets(members);
    let all = sets.push(incoming);
    if groups::offered_by_all(all, name) {
        assert(all[sets.len() as int] == incoming);
        assert forall|id: Seq<char>| #[trigger] members.contains_key(id) implies groups::offers(members[id].protocols, name) by {
            assert(ids.to_set().contains(id));
            assert(ids.contains(id));
            let i = choose|i: int| 0 <= i < ids.len() && ids[i] == id;
            assert(all[i] == members[id].protocols);
        }
    }
    if groups::offers(incoming, name) && (forall|id: Seq<char>| #[trigger] members.contains_key(id) ==> groups::offers(members[id].protocols, name)) {
        assert forall|i: int| 0 <= i < all.len() implies groups::offers(#[trigger] all[i], name) by {
            if i < sets.len() {
                assert(ids.contains(ids[i]));
                assert(members.contains_key(ids[i]));
                assert(all[i] == members[ids[i]].protocols);
            }
        }
    }
}

/// Where all members and a newcomer agree on a protocol, some of the members and the newcomer do.
pub proof fn fewer_members_agree(members: Map<Seq<char>, GroupMemberView>, fewer: Map<Seq<char>, GroupMemberView>, incoming: Seq<GroupProtocolView>)
    requires
        sorted_map::lists_in_order::<String>(classic_groups::ordered(members.dom()), members.dom()),
        sorted_map::lists_in_order::<String>(classic_groups::ordered(fewer.dom()), fewer.dom()),
        fewer.submap_of(members),
        agreed(members, incoming) is Some,
    ensures
        agreed(fewer, incoming) is Some,
        groups::offers(incoming, agreed(fewer, incoming)->0),
{
    let sets = classic_groups::member_sets(members).push(incoming);
    let some = classic_groups::member_sets(fewer).push(incoming);
    groups::selection_is_offered_by_all(sets);
    let name = agreed(members, incoming)->0;
    member_sets_offer(members, incoming, name);
    member_sets_offer(fewer, incoming, name);
    assert forall|id: Seq<char>| #[trigger] fewer.contains_key(id) implies groups::offers(fewer[id].protocols, name) by {
        assert(members.contains_key(id));
        assert(fewer[id] == members[id]);
    }
    assert(groups::offered_by_all(some, name));
    groups::selection_is_offered_by_all(some);
    member_sets_offer(fewer, incoming, agreed(fewer, incoming)->0);
}

/// A newcomer to an empty group agrees with itself.
pub proof fn alone_agrees(incoming: Seq<GroupProtocolView>)
    requires
        incoming.len() > 0,
    ensures
        agreed(Map::empty(), incoming) is Some,
        sorted_map::lists_in_order::<String>(
            classic_groups::ordered(Map::<Seq<char>, GroupMemberView>::empty().dom()),
            Map::<Seq<char>, GroupMemberView>::empty().dom(),
        ),
{
    let nobody = Map::<Seq<char>, GroupMemberView>::empty();
    assert(Seq::<Seq<char>>::empty().to_set() =~= nobody.dom());
    assert(sorted_map::lists_in_order::<String>(Seq::<Seq<char>>::empty(), nobody.dom()));
    sorted_map::sorted_keys_are::<String>(Seq::<Seq<char>>::empty(), nobody.dom());
    let name = incoming[0].name;
    assert(groups::offers(incoming, name));
    member_sets_offer(nobody, incoming, name);
    groups::selection_is_offered_by_all(classic_groups::member_sets(nobody).push(incoming));
}

/// Makes a member id for a client.
pub fn make_member_id(client_id: &str, fresh: &str) -> (r: String)
    ensures
        r@ == made_member_id(client_id@, fresh@),
{
    let mut id = client_id.to_owned();
    id.append("-");
    id.append(fresh);
    id
}

/// Whether the group can speak with a member that brings these protocols.
pub fn is_compatible(group: &MemoryGroup, protocol_type: &str, incoming: &Vec<GroupProtocol>) -> (r: bool)
    ensures
        r == compatible(group.deep_view(), protocol_type@, incoming.deep_view()),
        r ==> sorted_map::lists_in_order::<String>(classic_groups::ordered(group.deep_view().members.dom()), group.deep_view().members.dom()),
{
    if !group.protocol_type.as_str().is_empty() && !same_text(group.protocol_type.as_str(), protocol_type) {
        return false;
    }
    let mut sets = protocol_sets(&group.members);
    let ghost before = groups::set_models(sets@);
    sets.push(incoming.as_slice());
    assert(groups::set_models(sets@) =~= before.push(incoming.deep_view())) by {
        assert(sorted_map::models(incoming@) =~= incoming.deep_view());
    }
    groups::select_protocol(sets.as_slice()).is_some()
}

/// The protocol that the members and a newcomer agree on.
pub fn agree(members: &SortedMap<String, GroupMember>, incoming: &Vec<GroupProtocol>) -> (r: Option<String>)
    ensures
        r.deep_view() == agreed(members.deep_view(), incoming.deep_view()),
        sorted_map::lists_in_order::<String>(classic_groups::ordered(members.deep_view().dom()), members.deep_view().dom()),
{
    let mut sets = protocol_sets(members);
    let ghost before = groups::set_models(sets@);
    sets.push(incoming.as_slice());
    assert(groups::set_models(sets@) =~= before.push(incoming.deep_view())) by {
        assert(sorted_map::models(incoming@) =~= incoming.deep_view());
    }
    groups::select_protocol(sets.as_slice())
}

/// Decides under which id a member is seated.
pub fn resolve_member_id(
    group: Option<&MemoryGroup>,
    pending: &SortedMap<(String, String), Timestamp>,
    request: &JoinRequest,
    fresh: &str,
) -> (r: Result<(String, Option<String>), ControlError>)
    ensures
        error::outcome(r) == resolved(group.deep_view(), pending.deep_view(), request.deep_view(), fresh@),
{
    let requested = &request.requested_member_id;
    match &request.group_instance_id {
        Some(instance) => {
            let owner = match group {
                Some(g) => g.member_id_for_instance(instance.as_str()),
                None => None,
            };
            if requested.as_str().is_empty() {
                return Ok((make_member_id(request.client_id.as_str(), fresh), owner));
            }
            match owner {
                None => Err(ControlError::GroupMemberNotFound { group: request.group_id.clone(), member: requested.clone() }),
                Some(id) => if same_text(id.as_str(), requested.as_str()) {
                    Ok((id, None))
                } else {
                    Err(ControlError::FencedInstanceId { group: request.group_id.clone(), instance_id: instance.clone() })
                },
            }
        },
        None => {
            if requested.as_str().is_empty() {
                return Ok((make_member_id(request.client_id.as_str(), fresh), None));
            }
            let existing = match group {
                Some(g) => g.members.contains_key(requested),
                None => false,
            };
            if existing || pending.contains_key(&(request.group_id.clone(), requested.clone())) {
                Ok((requested.clone(), None))
            } else {
                Err(ControlError::GroupMemberNotFound { group: request.group_id.clone(), member: requested.clone() })
            }
        },
    }
}

/// Whether two lists name the same protocols in the same order.
pub fn same_protocol_names(a: &Vec<GroupProtocol>, b: &Vec<GroupProtocol>) -> (r: bool)
    ensures
        r == (protocol_names(a.deep_view()) == protocol_names(b.deep_view())),
{
    let ghost left = protocol_names(a.deep_view());
    let ghost right = protocol_names(b.deep_view());
    if a.len() != b.len() {
        assert(left.len() != right.len());
        return false;
    }
    let mut i: usize = 0;
    while i < a.len()
        invariant
            i <= a@.len(),
            a@.len() == b@.len(),
            left == protocol_names(a.deep_view()),
            right == protocol_names(b.deep_view()),
            forall|j: int| 0 <= j < i ==> left[j] == right[j],
        decreases a@.len() - i,
    {
        assert(left[i as int] == a@[i as int].name@);
        assert(right[i as int] == b@[i as int].name@);
        if !same_text(a[i].name.as_str(), b[i].name.as_str()) {
            return false;
        }
        i = i + 1;
    }
    assert(left =~= right);
    true
}

/// Clears the seats of the member who joins and of the one that it replaces; gives the protocol
/// that the others and the newcomer agree on, and the member that held the seat before.
pub fn clear_seats(
    group: &mut MemoryGroup,
    id: &String,
    replaced: &Option<String>,
    existing: bool,
    incoming: &Vec<GroupProtocol>,
) -> (r: (String, Option<GroupMember>))
    requires
        agreed(old(group).deep_view().members, incoming.deep_view()) is Some,
        sorted_map::lists_in_order::<String>(classic_groups::ordered(old(group).deep_view().members.dom()), old(group).deep_view().members.dom()),
    ensures
        final(group).deep_view() == (MemoryGroupView {
            members: others(old(group).deep_view().members, id@, replaced.deep_view()),
            ..old(group).deep_view()
        }),
        Some(r.0@) == agreed(others(old(group).deep_view().members, id@, replaced.deep_view()), incoming.deep_view()),
        groups::offers(incoming.deep_view(), r.0@),
        r.1.deep_view() == predecessor(old(group).deep_view(), id@, replaced.deep_view(), existing),
{
    let ghost g = group.deep_view();
    let previous = match replaced {
        Some(old_id) => {
            let taken_over = group.members.remove(old_id);
            group.members.remove(id);
            taken_over
        },
        None => {
            let own = group.members.remove(id);
            if existing {
                own
            } else {
                None
            }
        },
    };
    let name = agree(&group.members, incoming);
    proof {
        let fewer = others(g.members, id@, replaced.deep_view());
        assert(fewer.submap_of(g.members));
        fewer_members_agree(g.members, fewer, incoming.deep_view());
    }
    (name.unwrap(), previous)
}

/// Seats a member in a group whose seats for it are clear.
pub(crate) fn seat(
    group: &mut MemoryGroup,
    protocol_type: &str,
    member: GroupMember,
    replaced: &Option<String>,
    name: &str,
    was: Ghost<MemoryGroupView>,
)
    requires
        old(group).deep_view() == (MemoryGroupView {
            members: others(was@.members, member.deep_view().member_id, replaced.deep_view()),
            ..was@
        }),
    ensures
        final(group).deep_view() == seated(was@, protocol_type@, member.deep_view(), replaced.deep_view(), name@),
{
    let id = member.member_id.clone();
    if let Some(old_id) = replaced {
        let passed_on = group.assignments.remove(old_id);
        proof {
            if passed_on is None {
                assert(was@.assignments.remove(old_id@) =~= was@.assignments);
            }
        }
        if let Some(assignment) = passed_on {
            group.assignments.insert(id.clone(), assignment);
        }
        if same_text(group.leader.as_str(), old_id.as_str()) {
            group.leader = id.clone();
        }
    }
    group.protocol_type = protocol_type.to_owned();
    group.members.insert(id, member);
    proof {
        let kept = match replaced.deep_view() {
            Some(old_id) => was@.members.remove(old_id),
            None => was@.members,
        };
        assert(kept.remove(id@).insert(id@, member.deep_view()) =~= kept.insert(id@, member.deep_view()));
    }
    group.apply_protocol(name);
}

/// A member as it joins.
pub fn make_member(
    request: &JoinRequest,
    id: &String,
    incoming: Vec<GroupProtocol>,
    name: &String,
    rebalance_timeout_ms: i32,
    now: Timestamp,
    joined: Option<u128>,
) -> (r: GroupMember)
    requires
        incoming.deep_view() == groups::offered(request.deep_view().protocols),
        groups::offers(incoming.deep_view(), name@),
    ensures
        r.deep_view() == newcomer(request.deep_view(), id@, name@, rebalance_timeout_ms, now.deep_view(), joined),
{
    let metadata = groups::offer_metadata(incoming.as_slice(), name.as_str());
    proof {
        assert(sorted_map::models(incoming@) =~= incoming.deep_view());
        groups::find_offer_finds(incoming.deep_view(), name@);
    }
    GroupMember {
        member_id: id.clone(),
        group_instance_id: request.group_instance_id.duplicate(),
        protocols: incoming,
        protocol_name: name.clone(),
        metadata: metadata.unwrap(),
        subscribed_topics: request.subscribed_topics.duplicate(),
        client_id: request.client_id.clone(),
        client_host: request.client_host.clone(),
        rebalance_timeout_ms,
        session_timeout_ms: request.session_timeout_ms,
        last_heartbeat: now,
        joined_rebalance_id: joined,
    }
}

/// Gives a member its seat and tells it what it needs to know.
pub fn take_seat(
    group: &mut MemoryGroup,
    request: &JoinRequest,
    id: String,
    replaced: Option<String>,
    existing: bool,
    incoming: Vec<GroupProtocol>,
    now: Timestamp,
) -> (r: JoinGroupResult)
    requires
        old(group).generation_id < i32::MAX,
        incoming.deep_view() == groups::offered(request.deep_view().protocols),
        agreed(old(group).deep_view().members, incoming.deep_view()) is Some,
        sorted_map::lists_in_order::<String>(classic_groups::ordered(old(group).deep_view().members.dom()), old(group).deep_view().members.dom()),
    ensures
        (final(group).deep_view(), r.deep_view()) == seating(
            old(group).deep_view(),
            request.deep_view(),
            id@,
            replaced.deep_view(),
            existing,
            now.deep_view(),
        ),
{
    let ghost g = group.deep_view();
    let ghost open_group = MemoryGroupView { empty_since: None, ..g };
    group.empty_since = None;
    let old_leader = group.leader.clone();
    let old_name = group.protocol_name.clone();
    let (name, previous) = clear_seats(group, &id, &replaced, existing, &incoming);
    let protocol_changed = !old_name.as_str().is_empty() && !same_text(old_name.as_str(), name.as_str());
    let member_changed = match &previous {
        Some(member) => !same_protocol_names(&member.protocols, &incoming) || !same_texts(&member.subscribed_topics, &request.subscribed_topics),
        None => false,
    };
    let rebalance = (previous.is_none() && replaced.is_none()) || member_changed || protocol_changed;
    let member = make_member(request, &id, incoming, &name, request.session_timeout_ms, now, None);
    seat(group, request.protocol_type.as_str(), member, &replaced, name.as_str(), Ghost(open_group));
    if rebalance {
        group.begin_rebalance();
    } else if group.leader.as_str().is_empty() {
        group.leader = id.clone();
    }
    let took_over_leader = match &replaced {
        Some(old_id) => same_text(old_id.as_str(), old_leader.as_str()),
        None => false,
    };
    let skip_assignment = request.api_version >= 9 && replaced.is_some() && !rebalance && same_text(group.leader.as_str(), id.as_str());
    JoinGroupResult {
        generation_id: group.generation_id,
        protocol_type: group.protocol_type.clone(),
        protocol_name: name,
        leader: if took_over_leader && request.api_version < 9 && !rebalance {
            old_leader
        } else {
            group.leader.clone()
        },
        member_id: id,
        members: listed_members(&group.members),
        skip_assignment,
        pending_rebalance: None,
        retry_after_ms: 0,
    }
}

/// Whether the group, if it exists, has room for as many more generations.
pub open spec fn generations_left(s: ClassicGroupsView, group_id: Seq<char>, n: int) -> bool {
    s.groups.contains_key(group_id) ==> s.groups[group_id].generation_id <= i32::MAX - n
}

impl ClassicGroups {
    pub fn new() -> (r: Self)
        ensures
            r.deep_view() == (ClassicGroupsView { groups: Map::empty(), pending_members: Map::empty() }),
    {
        ClassicGroups { groups: SortedMap::new(), pending_members: SortedMap::new() }
    }

    /// Forgets the group's member ids that have lapsed.
    pub fn drop_lapsed(&mut self, group_id: &str, now: Timestamp)
        ensures
            final(self).deep_view() == (ClassicGroupsView {
                pending_members: unlapsed(old(self).deep_view().pending_members, group_id@, now.deep_view()),
                ..old(self).deep_view()
            }),
    {
        let ghost keep = |id: (Seq<char>, Seq<char>), lapses: int| id.0 != group_id@ || lapses > now.deep_view();
        let test = |id: &(String, String), lapses: &Timestamp| -> (b: bool)
            ensures b == keep(id.deep_view(), lapses.deep_view())
        {
            !same_text(id.0.as_str(), group_id) || lapses.nanos > now.nanos
        };
        self.pending_members.retain(test, Ghost(keep));
    }

    fn clear_expired(&mut self, group_id: &String, now: Timestamp)
        requires
            generations_left(old(self).deep_view(), group_id@, 1),
        ensures
            final(self).deep_view() == cleared(old(self).deep_view(), group_id@, now.deep_view()),
    {
        self.drop_lapsed(group_id.as_str(), now);
        match self.groups.remove(group_id) {
            None => {
                proof {
                    let groups = old(self).deep_view().groups;
                    assert(groups.remove(group_id@) =~= groups);
                }
            },
            Some(mut group) => {
                if group.remove_expired_members(now) {
                    if group.members.is_empty() {
                        group.protocol_type = String::new();
                        group.protocol_name = String::new();
                        group.leader = String::new();
                    } else {
                        group.begin_rebalance();
                    }
                }
                self.groups.insert(group_id.clone(), group);
                proof {
                    let groups = old(self).deep_view().groups;
                    let after = settled(groups[group_id@], now.deep_view());
                    assert(groups.remove(group_id@).insert(group_id@, after) =~= groups.insert(group_id@, after));
                }
            },
        }
    }

    /// Lets a member join a group in one step; `fresh` is the text from which a new member id is
    /// made.
    pub fn join_group(&mut self, request: &JoinRequest, now: Timestamp, fresh: &str) -> (r: Result<JoinGroupResult, ControlError>)
        requires
            generations_left(old(self).deep_view(), request.deep_view().group_id, 2),
        ensures
            (final(self).deep_view(), error::outcome(r)) == joined(old(self).deep_view(), request.deep_view(), now.deep_view(), fresh@),
    {
        let ghost s = self.deep_view();
        let group_id = &request.group_id;
        if group_id.as_str().is_empty() || request.protocol_type.as_str().is_empty() || request.protocols.len() == 0
            || request.session_timeout_ms <= 0 {
            assert(request.deep_view().protocols.len() == request.protocols@.len());
            return Err(ControlError::InvalidRequest("group id, protocol type, protocols, and session timeout are required".to_owned()));
        }
        assert(request.deep_view().protocols.len() == request.protocols@.len());
        self.clear_expired(group_id, now);
        let ghost c = self.deep_view();
        let incoming = groups::protocols(request.protocols.as_slice());
        assert(sorted_map::models(request.protocols@) =~= request.protocols.deep_view());
        if let Some(group) = self.groups.get(group_id) {
            if !is_compatible(group, request.protocol_type.as_str(), &incoming) {
                return Err(ControlError::InconsistentGroupProtocol(group_id.clone()));
            }
        }
        let requested = &request.requested_member_id;
        if request.group_instance_id.is_none() && requested.as_str().is_empty() && request.api_version >= 4 {
            let member_id = make_member_id(request.client_id.as_str(), fresh);
            self.pending_members.insert((group_id.clone(), member_id.clone()), now.plus_millis(request.session_timeout_ms));
            return Err(ControlError::MemberIdRequired { member_id });
        }
        let existing = !requested.as_str().is_empty() && match self.groups.get(group_id) {
            Some(group) => group.members.contains_key(requested),
            None => false,
        };
        let (member_id, replaced) = match resolve_member_id(self.groups.get(group_id), &self.pending_members, request, fresh) {
            Err(error) => {
                return Err(error);
            },
            Ok(resolved) => resolved,
        };
        if request.group_instance_id.is_none() && !requested.as_str().is_empty() && !existing {
            self.pending_members.remove(&(group_id.clone(), requested.clone()));
        }
        let mut group = match self.groups.remove(group_id) {
            Some(group) => group,
            None => MemoryGroup::new(),
        };
        proof {
            if !c.groups.contains_key(group_id@) {
                alone_agrees(incoming.deep_view());
            }
        }
        let answer = take_seat(&mut group, request, member_id, replaced, existing, incoming, now);
        let ghost after = group.deep_view();
        self.groups.insert(group_id.clone(), group);
        assert(c.groups.remove(group_id@).insert(group_id@, after) =~= c.groups.insert(group_id@, after));
        Ok(answer)
    }
}

} // verus!
