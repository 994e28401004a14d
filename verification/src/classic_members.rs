//! What members of a classic group do once they have joined: sync, heartbeat, leave.

use crate::classic_barrier;
use crate::classic_barrier::finish_if_ready;
use crate::classic_groups;
use crate::classic_groups::{protocol_sets, MemoryGroup, MemoryGroupView};
use crate::classic_join;
use crate::classic_join::{ClassicGroups, ClassicGroupsView};
use crate::error;
use crate::error::{ControlError, ControlErrorView};
use crate::groups;
use crate::groups::{
    GroupAssignment, GroupAssignmentView, GroupMember, GroupMemberIdentity, GroupMemberIdentityView, GroupMemberView,
    LeaveGroupMemberError, LeaveGroupMemberResult, LeaveGroupMemberResultView,
};
use crate::sorted_map;
use crate::sorted_map::{Duplicate, SortedMap};
use crate::text::same_text;
use crate::time::Timestamp;
use vstd::prelude::*;

verus! {

/// A group after expired members have left it, in its next generation where some have.
pub open spec fn current(g: MemoryGroupView, now: int) -> MemoryGroupView {
    if classic_groups::some_expired(g, now) {
        classic_groups::next_generation(classic_groups::without_expired(g, now))
    } else {
        classic_groups::without_expired(g, now)
    }
}

/// The groups after a member has been checked, and why it was turned away.
pub open spec fn checked(
    s: ClassicGroupsView,
    group_id: Seq<char>,
    generation_id: i32,
    member_id: Seq<char>,
    instance: Option<Seq<char>>,
    now: int,
) -> (ClassicGroupsView, Result<(), ControlErrorView>) {
    if !s.groups.contains_key(group_id) {
        (s, Err(ControlErrorView::GroupNotFound(group_id)))
    } else if s.groups[group_id].rebalance_pending {
        (s, Err(ControlErrorView::RebalanceInProgress(group_id)))
    } else {
        let g = current(s.groups[group_id], now);
        let after = ClassicGroupsView { groups: s.groups.insert(group_id, g), ..s };
        if g.generation_id != generation_id {
            (
                after,
                Err(ControlErrorView::IllegalGeneration { group: group_id, expected: g.generation_id, actual: generation_id }),
            )
        } else {
            match classic_groups::identity_error(g.members, group_id, member_id, instance) {
                Some(error) => (after, Err(error)),
                None => (after, Ok(())),
            }
        }
    }
}

/// The assignments after those of a list have been stored for the ids that name members.
pub open spec fn assigned(
    assignments: Map<Seq<char>, Seq<u8>>,
    members: Map<Seq<char>, GroupMemberView>,
    list: Seq<GroupAssignmentView>,
) -> Map<Seq<char>, Seq<u8>>
    decreases list.len(),
{
    if list.len() == 0 {
        assignments
    } else {
        let before = assigned(assignments, members, list.drop_last());
        if members.contains_key(list.last().member_id) {
            before.insert(list.last().member_id, list.last().assignment)
        } else {
            before
        }
    }
}

/// The groups after the leader has handed out assignments, and the member's own.
pub open spec fn synced(
    s: ClassicGroupsView,
    group_id: Seq<char>,
    generation_id: i32,
    member_id: Seq<char>,
    instance: Option<Seq<char>>,
    list: Seq<GroupAssignmentView>,
    now: int,
) -> (ClassicGroupsView, Result<Seq<u8>, ControlErrorView>) {
    let (c, verdict) = checked(s, group_id, generation_id, member_id, instance, now);
    match verdict {
        Err(error) => (c, Err(error)),
        Ok(_) => {
            let g = c.groups[group_id];
            let assignments = assigned(g.assignments, g.members, list);
            (
                ClassicGroupsView { groups: c.groups.insert(group_id, MemoryGroupView { assignments, ..g }), ..c },
                Ok(
                    if assignments.contains_key(member_id) {
                        assignments[member_id]
                    } else {
                        Seq::empty()
                    },
                ),
            )
        },
    }
}

/// The groups after a member has shown that it lives.
pub open spec fn refreshed(
    s: ClassicGroupsView,
    group_id: Seq<char>,
    generation_id: i32,
    member_id: Seq<char>,
    instance: Option<Seq<char>>,
    now: int,
) -> (ClassicGroupsView, Result<(), ControlErrorView>) {
    let (c, verdict) = checked(s, group_id, generation_id, member_id, instance, now);
    match verdict {
        Err(error) => (c, Err(error)),
        Ok(_) => {
            let g = c.groups[group_id];
            let member = GroupMemberView { last_heartbeat: now, ..g.members[member_id] };
            (
                ClassicGroupsView {
                    groups: c.groups.insert(group_id, MemoryGroupView { members: g.members.insert(member_id, member), ..g }),
                    ..c
                },
                Ok(()),
            )
        },
    }
}

/// The member that a leaving identity names, or why it names none.
pub open spec fn leaver(members: Map<Seq<char>, GroupMemberView>, identity: GroupMemberIdentityView) -> Result<
    Seq<char>,
    LeaveGroupMemberError,
> {
    match identity.group_instance_id {
        Some(instance) => match classic_groups::instance_owner(members, instance) {
            None => Err(LeaveGroupMemberError::UnknownMemberId),
            Some(id) => if identity.member_id.len() > 0 && identity.member_id != id {
                Err(LeaveGroupMemberError::FencedInstanceId)
            } else {
                Ok(id)
            },
        },
        None => if identity.member_id.len() > 0 && members.contains_key(identity.member_id) {
            Ok(identity.member_id)
        } else {
            Err(LeaveGroupMemberError::UnknownMemberId)
        },
    }
}

/// What each leaving identity is told.
pub open spec fn farewells(members: Map<Seq<char>, GroupMemberView>, identities: Seq<GroupMemberIdentityView>) -> Seq<LeaveGroupMemberResultView> {
    Seq::new(
        identities.len(),
        |i: int|
            LeaveGroupMemberResultView {
                identity: identities[i],
                error: match leaver(members, identities[i]) {
                    Ok(_) => None,
                    Err(error) => Some(error),
                },
            },
    )
}

/// Whether one of the identities names the member.
pub open spec fn leaves(members: Map<Seq<char>, GroupMemberView>, identities: Seq<GroupMemberIdentityView>, id: Seq<char>) -> bool {
    exists|i: int| 0 <= i < identities.len() && leaver(members, #[trigger] identities[i]) == Ok::<Seq<char>, LeaveGroupMemberError>(id)
}

/// The group after the named members have left it.
pub open spec fn abandoned(g: MemoryGroupView, identities: Seq<GroupMemberIdentityView>, now: int) -> MemoryGroupView {
    let rest = MemoryGroupView {
        members: sorted_map::filtered(g.members, |id: Seq<char>, member: GroupMemberView| !leaves(g.members, identities, id)),
        assignments: sorted_map::filtered(g.assignments, |id: Seq<char>, bytes: Seq<u8>| !leaves(g.members, identities, id)),
        ..g
    };
    if !(exists|id: Seq<char>| leaves(g.members, identities, id)) {
        rest
    } else if rest.members == Map::<Seq<char>, GroupMemberView>::empty() {
        MemoryGroupView {
            generation_id: if g.generation_id == i32::MAX {
                i32::MAX
            } else {
                (g.generation_id + 1) as i32
            },
            protocol_name: Seq::empty(),
            leader: Seq::empty(),
            assignments: Map::empty(),
            empty_since: Some(now),
            ..rest
        }
    } else if g.rebalance_pending {
        classic_barrier::progressed(rest, now)
    } else {
        classic_groups::next_generation(
            match groups::selected(classic_groups::member_sets(rest.members)) {
                Some(name) => classic_groups::speaking(rest, name),
                None => rest,
            },
        )
    }
}

/// The groups after members have left one of them, and what each is told.
pub open spec fn left(s: ClassicGroupsView, group_id: Seq<char>, identities: Seq<GroupMemberIdentityView>, now: int) -> (
    ClassicGroupsView,
    Result<Seq<LeaveGroupMemberResultView>, ControlErrorView>,
) {
    if !s.groups.contains_key(group_id) {
        (s, Err(ControlErrorView::GroupNotFound(group_id)))
    } else {
        let g = s.groups[group_id];
        (
            ClassicGroupsView { groups: s.groups.insert(group_id, abandoned(g, identities, now)), ..s },
            Ok(farewells(g.members, identities)),
        )
    }
}

pub(crate) fn find_leaver(group: &MemoryGroup, identity: &GroupMemberIdentity) -> (r: Result<String, LeaveGroupMemberError>)
    ensures
        match r {
            Ok(id) => leaver(group.deep_view().members, identity.deep_view()) == Ok::<Seq<char>, LeaveGroupMemberError>(id@),
            Err(error) => leaver(group.deep_view().members, identity.deep_view()) == Err::<Seq<char>, LeaveGroupMemberError>(error),
        },
{
    match &identity.group_instance_id {
        Some(instance) => match group.member_id_for_instance(instance.as_str()) {
            None => Err(LeaveGroupMemberError::UnknownMemberId),
            Some(id) => if !identity.member_id.as_str().is_empty() && !same_text(identity.member_id.as_str(), id.as_str()) {
                Err(LeaveGroupMemberError::FencedInstanceId)
            } else {
                Ok(id)
            },
        },
        None => if !identity.member_id.as_str().is_empty() && group.members.contains_key(&identity.member_id) {
            Ok(identity.member_id.clone())
        } else {
            Err(LeaveGroupMemberError::UnknownMemberId)
        },
    }
}

fn remove_leavers(group: &mut MemoryGroup, identities: &[GroupMemberIdentity], now: Timestamp) -> (r: Vec<LeaveGroupMemberResult>)
    requires
        old(group).generation_id < i32::MAX,
    ensures
        final(group).deep_view() == abandoned(old(group).deep_view(), sorted_map::models(identities@), now.deep_view()),
        r.deep_view() == farewells(old(group).deep_view().members, sorted_map::models(identities@)),
{
    let ghost g = group.deep_view();
    let ghost all = sorted_map::models(identities@);
    let mut gone: SortedMap<String, ()> = SortedMap::new();
    let mut results: Vec<LeaveGroupMemberResult> = Vec::new();
    let mut i: usize = 0;
    while i < identities.len()
        invariant
            i <= identities@.len(),
            all == sorted_map::models(identities@),
            group.deep_view() == g,
            results@.len() == i,
            forall|j: int| 0 <= j < i ==> (#[trigger] results@[j]).deep_view() == farewells(g.members, all)[j],
            forall|id: Seq<char>| #[trigger] gone.deep_view().contains_key(id) == exists|j: int|
                0 <= j < i && leaver(g.members, #[trigger] all[j]) == Ok::<Seq<char>, LeaveGroupMemberError>(id),
            group.generation_id < i32::MAX,
        decreases identities@.len() - i,
    {
        let identity = &identities[i];
        let ghost before = gone.deep_view();
        assert(all[i as int] == identity.deep_view());
        let error = match find_leaver(group, identity) {
            Ok(id) => {
                gone.insert(id, ());
                None
            },
            Err(error) => Some(error),
        };
        results.push(LeaveGroupMemberResult { identity: identity.duplicate(), error });
        proof {
            assert forall|id: Seq<char>| #[trigger] gone.deep_view().contains_key(id) == exists|j: int|
                0 <= j < i + 1 && leaver(g.members, #[trigger] all[j]) == Ok::<Seq<char>, LeaveGroupMemberError>(id) by {
                if before.contains_key(id) {
                    let j = choose|j: int| 0 <= j < i && leaver(g.members, #[trigger] all[j]) == Ok::<Seq<char>, LeaveGroupMemberError>(id);
                    assert(leaver(g.members, all[j]) == Ok::<Seq<char>, LeaveGroupMemberError>(id));
                }
                if leaver(g.members, all[i as int]) == Ok::<Seq<char>, LeaveGroupMemberError>(id) {
                    assert(gone.deep_view().contains_key(id));
                }
            }
        }
        i = i + 1;
    }
    assert(results.deep_view() =~= farewells(g.members, all));
    assert forall|id: Seq<char>| #[trigger] gone.deep_view().contains_key(id) == leaves(g.members, all, id) by {}
    let ghost stay = |id: Seq<char>, member: GroupMemberView| !leaves(g.members, all, id);
    let stays = |id: &String, member: &GroupMember| -> (b: bool)
        ensures b == stay(id.deep_view(), member.deep_view())
    {
        !gone.contains_key(id)
    };
    group.members.retain(stays, Ghost(stay));
    let ghost keep = |id: Seq<char>, bytes: Seq<u8>| !leaves(g.members, all, id);
    let keeps = |id: &String, bytes: &Vec<u8>| -> (b: bool)
        ensures b == keep(id.deep_view(), bytes.deep_view())
    {
        !gone.contains_key(id)
    };
    group.assignments.retain(keeps, Ghost(keep));
    if gone.is_empty() {
        assert forall|id: Seq<char>| !leaves(g.members, all, id) by {
            assert(gone.deep_view().contains_key(id) == leaves(g.members, all, id));
        }
        return results;
    }
    proof {
        if !(exists|id: Seq<char>| leaves(g.members, all, id)) {
            assert(gone.deep_view() =~= Map::<Seq<char>, ()>::empty());
        }
    }
    if group.members.is_empty() {
        group.generation_id = group.generation_id + 1;
        group.protocol_name = String::new();
        group.leader = String::new();
        group.assignments.clear();
        group.empty_since = Some(now);
    } else if group.rebalance_pending {
        finish_if_ready(group, now);
    } else {
        let name = {
            let sets = protocol_sets(&group.members);
            groups::select_protocol(sets.as_slice())
        };
        if let Some(name) = name {
            group.apply_protocol(name.as_str());
        }
        group.begin_rebalance();
    }
    results
}

impl ClassicGroups {
    /// Checks that a member belongs to the current generation of its group.
    pub fn validate_group_member(
        &mut self,
        group_id: &str,
        generation_id: i32,
        member_id: &str,
        group_instance_id: Option<&str>,
        now: Timestamp,
    ) -> (r: Result<(), ControlError>)
        requires
            classic_join::generations_left(old(self).deep_view(), group_id@, 1),
        ensures
            (final(self).deep_view(), error::outcome(r)) == checked(
                old(self).deep_view(),
                group_id@,
                generation_id,
                member_id@,
                group_instance_id.deep_view(),
                now.deep_view(),
            ),
    {
        let ghost s = self.deep_view();
        let key = group_id.to_owned();
        match self.groups.get(&key) {
            None => {
                return Err(ControlError::GroupNotFound(key));
            },
            Some(group) => {
                if group.rebalance_pending {
                    return Err(ControlError::RebalanceInProgress(key));
                }
            },
        }
        let mut group = self.groups.remove(&key).unwrap();
        if group.remove_expired_members(now) {
            group.begin_rebalance();
        }
        let expected: i32 = group.generation_id;
        let verdict = group.validate_member_identity(group_id, member_id, group_instance_id);
        let ghost after = group.deep_view();
        self.groups.insert(key.clone(), group);
        assert(s.groups.remove(group_id@).insert(group_id@, after) =~= s.groups.insert(group_id@, after));
        if expected != generation_id {
            return Err(ControlError::IllegalGeneration { group: key, expected, actual: generation_id });
        }
        verdict
    }

    /// Stores the assignments that the leader hands out, and gives the member its own.
    pub fn sync_group(
        &mut self,
        group_id: &str,
        generation_id: i32,
        member_id: &str,
        group_instance_id: Option<&str>,
        assignments: Vec<GroupAssignment>,
        now: Timestamp,
    ) -> (r: Result<Vec<u8>, ControlError>)
        requires
            classic_join::generations_left(old(self).deep_view(), group_id@, 1),
        ensures
            (final(self).deep_view(), error::outcome(r)) == synced(
                old(self).deep_view(),
                group_id@,
                generation_id,
                member_id@,
                group_instance_id.deep_view(),
                assignments.deep_view(),
                now.deep_view(),
            ),
    {
        if let Err(error) = self.validate_group_member(group_id, generation_id, member_id, group_instance_id, now) {
            return Err(error);
        }
        let ghost c = self.deep_view();
        let key = group_id.to_owned();
        let mut group = self.groups.remove(&key).unwrap();
        let ghost g = group.deep_view();
        let ghost list = assignments.deep_view();
        let mut i: usize = 0;
        assert(list.take(0) =~= Seq::<GroupAssignmentView>::empty());
        while i < assignments.len()
            invariant
                i <= assignments@.len(),
                list == assignments.deep_view(),
                group.deep_view() == (MemoryGroupView { assignments: assigned(g.assignments, g.members, list.take(i as int)), ..g }),
            decreases assignments@.len() - i,
        {
            let assignment = &assignments[i];
            proof {
                assert(list.take(i + 1).drop_last() =~= list.take(i as int));
                assert(list.take(i + 1).last() == assignment.deep_view());
            }
            if group.members.contains_key(&assignment.member_id) {
                group.assignments.insert(assignment.member_id.clone(), assignment.assignment.duplicate());
            }
            i = i + 1;
        }
        assert(list.take(list.len() as int) =~= list);
        let own = match group.assignments.get(&member_id.to_owned()) {
            Some(assignment) => assignment.duplicate(),
            None => {
                let nothing: Vec<u8> = Vec::new();
                assert(nothing.deep_view() =~= Seq::<u8>::empty());
                nothing
            },
        };
        let ghost after = group.deep_view();
        self.groups.insert(key, group);
        assert(c.groups.remove(group_id@).insert(group_id@, after) =~= c.groups.insert(group_id@, after));
        Ok(own)
    }

    /// Notes that a member lives.
    pub fn heartbeat_group(
        &mut self,
        group_id: &str,
        generation_id: i32,
        member_id: &str,
        group_instance_id: Option<&str>,
        now: Timestamp,
    ) -> (r: Result<(), ControlError>)
        requires
            classic_join::generations_left(old(self).deep_view(), group_id@, 1),
        ensures
            (final(self).deep_view(), error::outcome(r)) == refreshed(
                old(self).deep_view(),
                group_id@,
                generation_id,
                member_id@,
                group_instance_id.deep_view(),
                now.deep_view(),
            ),
    {
        if let Err(error) = self.validate_group_member(group_id, generation_id, member_id, group_instance_id, now) {
            return Err(error);
        }
        let ghost c = self.deep_view();
        let key = group_id.to_owned();
        let id = member_id.to_owned();
        let mut group = self.groups.remove(&key).unwrap();
        let ghost g = group.deep_view();
        let mut member = group.members.remove(&id).unwrap();
        member.last_heartbeat = now;
        let ghost lively = member.deep_view();
        group.members.insert(id, member);
        assert(g.members.remove(member_id@).insert(member_id@, lively) =~= g.members.insert(member_id@, lively));
        let ghost after = group.deep_view();
        self.groups.insert(key, group);
        assert(c.groups.remove(group_id@).insert(group_id@, after) =~= c.groups.insert(group_id@, after));
        Ok(())
    }

    /// Lets members leave a group.
    pub fn leave_group(&mut self, group_id: &str, members: &[GroupMemberIdentity], now: Timestamp) -> (r: Result<
        Vec<LeaveGroupMemberResult>,
        ControlError,
    >)
        requires
            classic_join::generations_left(old(self).deep_view(), group_id@, 1),
        ensures
            (final(self).deep_view(), error::outcome(r)) == left(
                old(self).deep_view(),
                group_id@,
                sorted_map::models(members@),
                now.deep_view(),
            ),
    {
        let ghost s = self.deep_view();
        let key = group_id.to_owned();
        match self.groups.remove(&key) {
            None => {
                assert(s.groups.remove(group_id@) =~= s.groups);
                Err(ControlError::GroupNotFound(key))
            },
            Some(mut group) => {
                let results = remove_leavers(&mut group, members, now);
                let ghost after = group.deep_view();
                self.groups.insert(key, group);
                assert(s.groups.remove(group_id@).insert(group_id@, after) =~= s.groups.insert(group_id@, after));
                Ok(results)
            },
        }
    }
}

} // verus!
