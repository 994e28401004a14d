//! Members of a classic group, its generations, and its leader.

use crate::error::ControlError;
use crate::error::ControlErrorView;
use crate::groups;
use crate::groups::{GroupMember, GroupMemberView, GroupProtocol, GroupProtocolView};
use crate::sorted_map;
use crate::sorted_map::{Duplicate, SortedMap};
use crate::text::same_text;
use crate::time;
use crate::time::Timestamp;
use vstd::prelude::*;

verus! {

/// A classic group: its members, their assignments, and the state of its rebalance.
pub struct MemoryGroup {
    pub generation_id: i32,
    pub protocol_type: String,
    pub protocol_name: String,
    pub leader: String,
    pub members: SortedMap<String, GroupMember>,
    pub assignments: SortedMap<String, Vec<u8>>,
    pub rebalance_id: Option<u128>,
    pub rebalance_pending: bool,
    pub rebalance_started_at: Option<Timestamp>,
    pub rebalance_deadline: Option<Timestamp>,
    pub initial_rebalance_deadline: Option<Timestamp>,
    pub empty_since: Option<Timestamp>,
}

/// The model of [`MemoryGroup`].
pub struct MemoryGroupView {
    pub generation_id: i32,
    pub protocol_type: Seq<char>,
    pub protocol_name: Seq<char>,
    pub leader: Seq<char>,
    pub members: Map<Seq<char>, GroupMemberView>,
    pub assignments: Map<Seq<char>, Seq<u8>>,
    pub rebalance_id: Option<u128>,
    pub rebalance_pending: bool,
    pub rebalance_started_at: Option<int>,
    pub rebalance_deadline: Option<int>,
    pub initial_rebalance_deadline: Option<int>,
    pub empty_since: Option<int>,
}

impl DeepView for MemoryGroup {
    type V = MemoryGroupView;

    open spec fn deep_view(&self) -> MemoryGroupView {
        MemoryGroupView {
            generation_id: self.generation_id,
            protocol_type: self.protocol_type@,
            protocol_name: self.protocol_name@,
            leader: self.leader@,
            members: self.members.deep_view(),
            assignments: self.assignments.deep_view(),
            rebalance_id: self.rebalance_id.deep_view(),
            rebalance_pending: self.rebalance_pending,
            rebalance_started_at: self.rebalance_started_at.deep_view(),
            rebalance_deadline: self.rebalance_deadline.deep_view(),
            initial_rebalance_deadline: self.initial_rebalance_deadline.deep_view(),
            empty_since: self.empty_since.deep_view(),
        }
    }
}

impl Duplicate for MemoryGroup {
    fn duplicate(&self) -> (r: Self) {
        MemoryGroup {
            generation_id: self.generation_id,
            protocol_type: self.protocol_type.clone(),
            protocol_name: self.protocol_name.clone(),
            leader: self.leader.clone(),
            members: self.members.duplicate(),
            assignments: self.assignments.duplicate(),
            rebalance_id: self.rebalance_id.duplicate(),
            rebalance_pending: self.rebalance_pending,
            rebalance_started_at: self.rebalance_started_at.duplicate(),
            rebalance_deadline: self.rebalance_deadline.duplicate(),
            initial_rebalance_deadline: self.initial_rebalance_deadline.duplicate(),
            empty_since: self.empty_since.duplicate(),
        }
    }
}

/// The ids of a set, in order.
pub open spec fn ordered(ids: Set<Seq<char>>) -> Seq<Seq<char>> {
    sorted_map::sorted_keys::<String>(ids)
}

/// The smallest id of a set; empty text where the set is empty.
pub open spec fn smallest(ids: Set<Seq<char>>) -> Seq<char> {
    if ordered(ids).len() == 0 {
        Seq::empty()
    } else {
        ordered(ids)[0]
    }
}

/// A group without members, in its first generation.
pub open spec fn new_group() -> MemoryGroupView {
    MemoryGroupView {
        generation_id: 0,
        protocol_type: Seq::empty(),
        protocol_name: Seq::empty(),
        leader: Seq::empty(),
        members: Map::empty(),
        assignments: Map::empty(),
        rebalance_id: None,
        rebalance_pending: false,
        rebalance_started_at: None,
        rebalance_deadline: None,
        initial_rebalance_deadline: None,
        empty_since: None,
    }
}

/// Whether a member's session has run out. A member that has joined the rebalance under way is
/// spared.
pub open spec fn session_over(g: MemoryGroupView, member: GroupMemberView, now: int) -> bool {
    &&& !(g.rebalance_pending && member.joined_rebalance_id == g.rebalance_id)
    &&& time::instant_after(member.last_heartbeat, member.session_timeout_ms as int) <= now
}

/// Whether some member's session has run out.
pub open spec fn some_expired(g: MemoryGroupView, now: int) -> bool {
    exists|id: Seq<char>| #[trigger] g.members.contains_key(id) && session_over(g, g.members[id], now)
}

/// The group without the members whose sessions have run out.
pub open spec fn without_expired(g: MemoryGroupView, now: int) -> MemoryGroupView {
    let members = sorted_map::filtered(g.members, |id: Seq<char>, member: GroupMemberView| !session_over(g, member, now));
    MemoryGroupView {
        members,
        assignments: sorted_map::filtered(
            g.assignments,
            |id: Seq<char>, bytes: Seq<u8>| !(g.members.contains_key(id) && session_over(g, g.members[id], now)),
        ),
        empty_since: if members != Map::<Seq<char>, GroupMemberView>::empty() {
            None
        } else if g.members != Map::<Seq<char>, GroupMemberView>::empty() {
            Some(now)
        } else {
            g.empty_since
        },
        ..g
    }
}

/// The group in its next generation: no assignments, and a leader that is a member.
pub open spec fn next_generation(g: MemoryGroupView) -> MemoryGroupView {
    MemoryGroupView {
        generation_id: (g.generation_id + 1) as i32,
        assignments: Map::empty(),
        leader: if g.members.contains_key(g.leader) {
            g.leader
        } else {
            smallest(g.members.dom())
        },
        ..g
    }
}

/// The first of `ids` that names a member with the instance id.
pub open spec fn first_with_instance(ids: Seq<Seq<char>>, members: Map<Seq<char>, GroupMemberView>, instance: Seq<char>) -> Option<Seq<char>>
    decreases ids.len(),
{
    if ids.len() == 0 {
        None
    } else if members[ids[0]].group_instance_id == Some(instance) {
        Some(members[ids[0]].member_id)
    } else {
        first_with_instance(ids.drop_first(), members, instance)
    }
}

/// The id of the member that holds an instance id.
pub open spec fn instance_owner(members: Map<Seq<char>, GroupMemberView>, instance: Seq<char>) -> Option<Seq<char>> {
    first_with_instance(ordered(members.dom()), members, instance)
}

/// Why a member is not taken for the one that it claims to be.
pub open spec fn identity_error(
    members: Map<Seq<char>, GroupMemberView>,
    group_id: Seq<char>,
    member_id: Seq<char>,
    instance: Option<Seq<char>>,
) -> Option<ControlErrorView> {
    if instance is Some && instance_owner(members, instance->0) is None {
        Some(ControlErrorView::GroupMemberNotFound { group: group_id, member: member_id })
    } else if instance is Some && instance_owner(members, instance->0) != Some(member_id) {
        Some(ControlErrorView::FencedInstanceId { group: group_id, instance_id: instance->0 })
    } else if !members.contains_key(member_id) {
        Some(ControlErrorView::GroupMemberNotFound { group: group_id, member: member_id })
    } else {
        None
    }
}

/// The group after it has agreed on a protocol.
pub open spec fn speaking(g: MemoryGroupView, name: Seq<char>) -> MemoryGroupView {
    MemoryGroupView {
        protocol_name: name,
        members: g.members.map_values(|member: GroupMemberView| groups::with_protocol(member, name)),
        ..g
    }
}

/// The lists of protocols that the members offer, in the order of the member ids.
pub open spec fn member_sets(members: Map<Seq<char>, GroupMemberView>) -> Seq<Seq<GroupProtocolView>> {
    Seq::new(ordered(members.dom()).len(), |i: int| members[ordered(members.dom())[i]].protocols)
}

/// The members in the order of their ids.
pub open spec fn listed(members: Map<Seq<char>, GroupMemberView>) -> Seq<GroupMemberView> {
    Seq::new(ordered(members.dom()).len(), |i: int| members[ordered(members.dom())[i]])
}

impl MemoryGroup {
    pub fn new() -> (r: Self)
        ensures
            r.deep_view() == new_group(),
    {
        MemoryGroup {
            generation_id: 0,
            protocol_type: String::new(),
            protocol_name: String::new(),
            leader: String::new(),
            members: SortedMap::new(),
            assignments: SortedMap::new(),
            rebalance_id: None,
            rebalance_pending: false,
            rebalance_started_at: None,
            rebalance_deadline: None,
            initial_rebalance_deadline: None,
            empty_since: None,
        }
    }

    /// Removes the members whose sessions have run out; tells whether there were any.
    pub fn remove_expired_members(&mut self, now: Timestamp) -> (r: bool)
        ensures
            final(self).deep_view() == without_expired(old(self).deep_view(), now.deep_view()),
            r == some_expired(old(self).deep_view(), now.deep_view()),
    {
        let ghost g = self.deep_view();
        let was_non_empty = !self.members.is_empty();
        let pending = self.rebalance_pending;
        let rebalance_id = self.rebalance_id;
        let ghost over = |id: Seq<char>, member: GroupMemberView| session_over(g, member, now.deep_view());
        let test = |id: &String, member: &GroupMember| -> (b: bool)
            ensures b == over(id.deep_view(), member.deep_view())
        {
            !(pending && same_rebalance(member.joined_rebalance_id, rebalance_id))
                && member.last_heartbeat.plus_millis(member.session_timeout_ms).nanos <= now.nanos
        };
        let expired = self.members.any(test, Ghost(over));
        assert(expired == some_expired(g, now.deep_view())) by {
            if expired {
                let id = choose|id: Seq<char>| #[trigger] g.members.contains_key(id) && over(id, g.members[id]);
                assert(g.members.contains_key(id));
            }
        }
        let ghost keep = |id: Seq<char>, bytes: Seq<u8>| !(g.members.contains_key(id) && session_over(g, g.members[id], now.deep_view()));
        let members = &self.members;
        let test = |id: &String, bytes: &Vec<u8>| -> (b: bool)
            ensures b == keep(id.deep_view(), bytes.deep_view())
        {
            match members.get(id) {
                None => true,
                Some(member) => !(!(pending && same_rebalance(member.joined_rebalance_id, rebalance_id))
                    && member.last_heartbeat.plus_millis(member.session_timeout_ms).nanos <= now.nanos),
            }
        };
        self.assignments.retain(test, Ghost(keep));
        let ghost stay = |id: Seq<char>, member: GroupMemberView| !session_over(g, member, now.deep_view());
        let test = |id: &String, member: &GroupMember| -> (b: bool)
            ensures b == stay(id.deep_view(), member.deep_view())
        {
            !(!(pending && same_rebalance(member.joined_rebalance_id, rebalance_id))
                && member.last_heartbeat.plus_millis(member.session_timeout_ms).nanos <= now.nanos)
        };
        self.members.retain(test, Ghost(stay));
        if self.members.is_empty() {
            if was_non_empty {
                self.empty_since = Some(now);
            }
        } else {
            self.empty_since = None;
        }
        expired
    }

    /// Starts the next generation.
    pub fn begin_rebalance(&mut self)
        requires
            old(self).generation_id < i32::MAX,
        ensures
            final(self).deep_view() == next_generation(old(self).deep_view()),
    {
        self.generation_id = self.generation_id + 1;
        self.assignments.clear();
        if !self.members.contains_key(&self.leader) {
            self.leader = smallest_member(&self.members);
        }
    }

    /// The id of the member that holds an instance id.
    pub fn member_id_for_instance(&self, group_instance_id: &str) -> (r: Option<String>)
        ensures
            r.deep_view() == instance_owner(self.deep_view().members, group_instance_id@),
    {
        let ghost members = self.members.deep_view();
        let ids = self.members.keys();
        let ghost all = ids.deep_view();
        let mut i: usize = 0;
        assert(all.skip(0) =~= all);
        while i < ids.len()
            invariant
                i <= ids@.len(),
                all == ids.deep_view(),
                all == ordered(members.dom()),
                all.to_set() == members.dom(),
                members == self.members.deep_view(),
                instance_owner(members, group_instance_id@) == first_with_instance(all.skip(i as int), members, group_instance_id@),
            decreases ids@.len() - i,
        {
            proof {
                assert(all[i as int] == ids@[i as int].deep_view());
                assert(all.contains(all[i as int]));
                assert(members.dom().contains(all[i as int]));
                assert(all.skip(i as int)[0] == all[i as int]);
            }
            match self.members.get(&ids[i]) {
                Some(member) => {
                    let held = match &member.group_instance_id {
                        Some(instance) => same_text(instance.as_str(), group_instance_id),
                        None => false,
                    };
                    if held {
                        return Some(member.member_id.clone());
                    }
                },
                None => {},
            }
            assert(all.skip(i as int).drop_first() =~= all.skip(i + 1));
            i = i + 1;
        }
        None
    }

    /// Checks that a member is the one that it claims to be.
    pub fn validate_member_identity(&self, group_id: &str, member_id: &str, group_instance_id: Option<&str>) -> (r: Result<(), ControlError>)
        ensures
            r is Ok <==> identity_error(self.deep_view().members, group_id@, member_id@, group_instance_id.deep_view()) is None,
            r is Err ==> Some(r->Err_0.deep_view()) == identity_error(self.deep_view().members, group_id@, member_id@, group_instance_id.deep_view()),
    {
        if let Some(instance_id) = group_instance_id {
            match self.member_id_for_instance(instance_id) {
                None => {
                    return Err(ControlError::GroupMemberNotFound { group: group_id.to_owned(), member: member_id.to_owned() });
                },
                Some(expected) => {
                    if !same_text(expected.as_str(), member_id) {
                        return Err(ControlError::FencedInstanceId { group: group_id.to_owned(), instance_id: instance_id.to_owned() });
                    }
                },
            }
        }
        if !self.members.contains_key(&member_id.to_owned()) {
            return Err(ControlError::GroupMemberNotFound { group: group_id.to_owned(), member: member_id.to_owned() });
        }
        Ok(())
    }

    /// Sets the group's protocol and every member's data for it.
    pub fn apply_protocol(&mut self, protocol_name: &str)
        ensures
            final(self).deep_view() == speaking(old(self).deep_view(), protocol_name@),
    {
        self.protocol_name = protocol_name.to_owned();
        let ghost change = |member: GroupMemberView| groups::with_protocol(member, protocol_name@);
        let test = |member: &GroupMember| -> (m: GroupMember)
            ensures m.deep_view() == change(member.deep_view())
        {
            let mut m = member.duplicate();
            groups::select_member_protocol(&mut m, protocol_name);
            m
        };
        self.members.update_values(test, Ghost(change));
    }
}

pub fn same_rebalance(a: Option<u128>, b: Option<u128>) -> (r: bool)
    ensures
        r == (a == b),
{
    match (a, b) {
        (None, None) => true,
        (Some(x), Some(y)) => x == y,
        _ => false,
    }
}

/// The smallest member id; empty text where there is no member.
pub fn smallest_member(members: &SortedMap<String, GroupMember>) -> (r: String)
    ensures
        r@ == smallest(members.deep_view().dom()),
{
    let ids = members.keys();
    if ids.len() == 0 {
        String::new()
    } else {
        assert(ids.deep_view()[0] == ids@[0].deep_view());
        ids[0].clone()
    }
}

/// The lists of protocols that the members offer, in the order of the member ids.
pub fn protocol_sets<'a>(members: &'a SortedMap<String, GroupMember>) -> (r: Vec<&'a [GroupProtocol]>)
    ensures
        groups::set_models(r@) == member_sets(members.deep_view()),
        sorted_map::lists_in_order::<String>(ordered(members.deep_view().dom()), members.deep_view().dom()),
{
    let ids = members.keys();
    let ghost all = ids.deep_view();
    let mut r: Vec<&'a [GroupProtocol]> = Vec::new();
    let mut i: usize = 0;
    while i < ids.len()
        invariant
            i <= ids@.len(),
            r@.len() == i,
            all == ids.deep_view(),
            all == ordered(members.deep_view().dom()),
            all.to_set() == members.deep_view().dom(),
            forall|j: int| 0 <= j < i ==> sorted_map::models((#[trigger] r@[j])@) == member_sets(members.deep_view())[j],
        decreases ids@.len() - i,
    {
        proof {
            assert(all[i as int] == ids@[i as int].deep_view());
            assert(all.contains(all[i as int]));
            assert(members.deep_view().dom().contains(all[i as int]));
        }
        match members.get(&ids[i]) {
            Some(member) => {
                assert(sorted_map::models(member.protocols@) =~= member.protocols.deep_view());
                r.push(member.protocols.as_slice());
            },
            None => {
                assert(false);
            },
        }
        i = i + 1;
    }
    assert(groups::set_models(r@) =~= member_sets(members.deep_view()));
    r
}

/// Copies of the members in the order of their ids.
pub fn listed_members(members: &SortedMap<String, GroupMember>) -> (r: Vec<GroupMember>)
    ensures
        r.deep_view() == listed(members.deep_view()),
{
    let ids = members.keys();
    let ghost all = ids.deep_view();
    let mut r: Vec<GroupMember> = Vec::new();
    let mut i: usize = 0;
    while i < ids.len()
        invariant
            i <= ids@.len(),
            r@.len() == i,
            all == ids.deep_view(),
            all == ordered(members.deep_view().dom()),
            all.to_set() == members.deep_view().dom(),
            forall|j: int| 0 <= j < i ==> (#[trigger] r@[j]).deep_view() == listed(members.deep_view())[j],
        decreases ids@.len() - i,
    {
        proof {
            assert(all[i as int] == ids@[i as int].deep_view());
            assert(all.contains(all[i as int]));
            assert(members.deep_view().dom().contains(all[i as int]));
        }
        match members.get(&ids[i]) {
            Some(member) => {
                r.push(member.duplicate());
            },
            None => {
                assert(false);
            },
        }
        i = i + 1;
    }
    assert(r.deep_view() =~= listed(members.deep_view()));
    r
}

} // verus!
