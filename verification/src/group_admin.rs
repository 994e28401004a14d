//! Listing, describing and deleting groups.

use crate::classic_groups;
use crate::classic_groups::{MemoryGroup, MemoryGroupView};
use crate::classic_join;
use crate::classic_members;
use crate::consumer_queries;
use crate::consumer_types::ConsumerMemberStateView;
use crate::error;
use crate::error::{ControlError, ControlErrorView};
use crate::groups;
use crate::groups::{
    ClassicGroupDescription, ClassicGroupDescriptionView, ClassicGroupMemberDescription,
    ClassicGroupMemberDescriptionView, GroupMember, GroupMemberView, GroupSummary, GroupSummaryView,
};
use crate::log_types::{CommittedOffset, CommittedOffsetView, LogStateView};
use crate::partition::{PartitionKey, PartitionKeyView};
use crate::sorted_map;
use crate::sorted_map::{Duplicate, SortedMap};
use crate::store::{ShareMemberView, Store, StoreView, StreamsCheck, StreamsCheckView, StreamsMemberView};
use crate::text::same_text;
use crate::time::Timestamp;
use vstd::prelude::*;

verus! {

/// Whether a group has stored an offset.
pub open spec fn has_offsets(offsets: Map<(Seq<char>, PartitionKeyView), CommittedOffsetView>, group_id: Seq<char>) -> bool {
    exists|key: (Seq<char>, PartitionKeyView)| #[trigger] offsets.contains_key(key) && key.0 == group_id
}

pub(crate) fn stores_offsets(offsets: &SortedMap<(String, PartitionKey), CommittedOffset>, group_id: &str) -> (r: bool)
    ensures
        r == has_offsets(offsets.deep_view(), group_id@),
{
    let ghost g = group_id@;
    let ghost own = |key: (Seq<char>, PartitionKeyView), offset: CommittedOffsetView| key.0 == g;
    let test = |key: &(String, PartitionKey), offset: &CommittedOffset| -> (b: bool)
        ensures b == own(key.deep_view(), offset.deep_view())
    {
        same_text(key.0.as_str(), group_id)
    };
    let r = offsets.any(test, Ghost(own));
    proof {
        let m = offsets.deep_view();
        if r {
            let key = choose|key: (Seq<char>, PartitionKeyView)| #[trigger] m.contains_key(key) && own(key, m[key]);
            assert(m.contains_key(key) && key.0 == g);
        } else if has_offsets(m, g) {
            let key = choose|key: (Seq<char>, PartitionKeyView)| #[trigger] m.contains_key(key) && key.0 == g;
            assert(own(key, m[key]));
        }
    }
    r
}

/// The members of a classic group that have an assignment.
pub open spec fn assigned_members(group: MemoryGroupView) -> Map<Seq<char>, GroupMemberView> {
    sorted_map::filtered(group.members, |id: Seq<char>, member: GroupMemberView| group.assignments.contains_key(id))
}

/// The name of a classic group's state.
pub open spec fn state_of(group: MemoryGroupView) -> Seq<char> {
    groups::classic_state_name(group.members.dom().len(), assigned_members(group).dom().len(), group.rebalance_pending)
}

fn find_state(group: &MemoryGroup) -> (r: String)
    ensures
        r@ == state_of(group.deep_view()),
{
    let ghost g = group.deep_view();
    let ghost assigned = |id: Seq<char>, member: GroupMemberView| g.assignments.contains_key(id);
    let assignments = &group.assignments;
    let test = |id: &String, member: &GroupMember| -> (b: bool)
        ensures b == assigned(id.deep_view(), member.deep_view())
    {
        assignments.contains_key(id)
    };
    let ids = group.members.keys_where(test, Ghost(assigned));
    proof {
        assert(sorted_map::filtered(g.members, assigned) == assigned_members(g));
        sorted_map::strictly_sorted_unique::<String>(ids.deep_view());
        assert(ids.deep_view().len() == ids@.len());
    }
    groups::classic_group_state(group.members.len(), ids.len(), group.rebalance_pending).to_owned()
}

/// What a listing tells of a group. `streams` and `shares` hold the names of the states of streams
/// and share groups.
pub open spec fn summary(s: StoreView, id: Seq<char>, streams: Map<Seq<char>, Seq<char>>, shares: Map<Seq<char>, Seq<char>>) -> Option<
    GroupSummaryView,
> {
    if shares.contains_key(id) {
        Some(GroupSummaryView { group_id: id, protocol_type: "share"@, state: shares[id], group_type: "Share"@ })
    } else if streams.contains_key(id) {
        Some(GroupSummaryView { group_id: id, protocol_type: "streams"@, state: streams[id], group_type: "Streams"@ })
    } else if s.consumer_groups.contains_key(id) {
        Some(
            GroupSummaryView {
                group_id: id,
                protocol_type: "consumer"@,
                state: consumer_queries::state_name(s.consumer_groups[id]),
                group_type: "Consumer"@,
            },
        )
    } else if s.classic.groups.contains_key(id) {
        Some(
            GroupSummaryView {
                group_id: id,
                protocol_type: s.classic.groups[id].protocol_type,
                state: state_of(s.classic.groups[id]),
                group_type: "Classic"@,
            },
        )
    } else if has_offsets(s.log.offsets, id) {
        Some(GroupSummaryView { group_id: id, protocol_type: ""@, state: "Empty"@, group_type: "Classic"@ })
    } else {
        None
    }
}

/// The ids of all groups.
pub open spec fn group_ids(s: StoreView, streams: Map<Seq<char>, Seq<char>>, shares: Map<Seq<char>, Seq<char>>) -> Set<Seq<char>> {
    Set::new(|id: Seq<char>| summary(s, id, streams, shares) is Some)
}

/// What a listing tells of all groups, in the order of their ids.
pub open spec fn listing(s: StoreView, streams: Map<Seq<char>, Seq<char>>, shares: Map<Seq<char>, Seq<char>>) -> Seq<GroupSummaryView> {
    let ids = sorted_map::sorted_keys::<String>(group_ids(s, streams, shares));
    Seq::new(ids.len(), |i: int| summary(s, ids[i], streams, shares)->0)
}

fn add_ids<V: DeepView>(ids: &mut SortedMap<String, ()>, groups: &SortedMap<String, V>)
    ensures
        final(ids).deep_view().dom() == old(ids).deep_view().dom().union(groups.deep_view().dom()),
{
    let ghost before = ids.deep_view().dom();
    let list = groups.keys();
    let ghost all = list.deep_view();
    let mut i: usize = 0;
    while i < list.len()
        invariant
            i <= list@.len(),
            all == list.deep_view(),
            forall|id: Seq<char>| #[trigger] ids.deep_view().dom().contains(id) <==> before.contains(id) || all.take(i as int).to_set().contains(id),
        decreases list@.len() - i,
    {
        proof {
            assert(all[i as int] == list@[i as int].deep_view());
            sorted_map::prefix_grows(all, i as int);
        }
        ids.insert(list[i].clone(), ());
        i = i + 1;
    }
    assert(all.take(i as int) =~= all);
    assert(ids.deep_view().dom() =~= before.union(groups.deep_view().dom()));
}

fn add_offset_ids(ids: &mut SortedMap<String, ()>, offsets: &SortedMap<(String, PartitionKey), CommittedOffset>)
    ensures
        forall|id: Seq<char>| #[trigger] final(ids).deep_view().dom().contains(id) <==> old(ids).deep_view().dom().contains(id) || has_offsets(
            offsets.deep_view(),
            id,
        ),
{
    let ghost before = ids.deep_view().dom();
    let ghost m = offsets.deep_view();
    let list = offsets.keys();
    let ghost all = list.deep_view();
    let mut i: usize = 0;
    while i < list.len()
        invariant
            i <= list@.len(),
            all == list.deep_view(),
            forall|id: Seq<char>| #[trigger] ids.deep_view().dom().contains(id) <==> before.contains(id) || exists|j: int| 0 <= j < i
                && (#[trigger] all[j]).0 == id,
        decreases list@.len() - i,
    {
        assert(all[i as int] == list@[i as int].deep_view());
        let ghost known = ids.deep_view().dom();
        ids.insert(list[i].0.clone(), ());
        proof {
            assert forall|id: Seq<char>| #[trigger] ids.deep_view().dom().contains(id) <==> before.contains(id)
                || exists|j: int| 0 <= j < i + 1 && (#[trigger] all[j]).0 == id by {
                if id == all[i as int].0 {
                    assert(all[i as int].0 == id);
                }
                if known.contains(id) && !before.contains(id) {
                    let j = choose|j: int| 0 <= j < i && (#[trigger] all[j]).0 == id;
                    assert(all[j].0 == id);
                }
                if exists|j: int| 0 <= j < i + 1 && (#[trigger] all[j]).0 == id {
                    let j = choose|j: int| 0 <= j < i + 1 && (#[trigger] all[j]).0 == id;
                    if j < i {
                        assert(known.contains(id));
                    }
                }
            }
        }
        i = i + 1;
    }
    proof {
        assert forall|id: Seq<char>| #[trigger] ids.deep_view().dom().contains(id) <==> before.contains(id) || has_offsets(m, id) by {
            if exists|j: int| 0 <= j < i && (#[trigger] all[j]).0 == id {
                let j = choose|j: int| 0 <= j < i && (#[trigger] all[j]).0 == id;
                assert(all.to_set().contains(all[j]));
                assert(m.contains_key(all[j]));
            }
            if has_offsets(m, id) {
                let key = choose|key: (Seq<char>, PartitionKeyView)| #[trigger] m.contains_key(key) && key.0 == id;
                assert(all.to_set().contains(key));
                let j = choose|j: int| 0 <= j < all.len() && all[j] == key;
                assert(all[j].0 == id);
            }
        }
    }
}

/// A group that has only stored offsets.
pub open spec fn empty_group(group_id: Seq<char>) -> ClassicGroupDescriptionView {
    ClassicGroupDescriptionView {
        group_id,
        state: "Empty"@,
        generation_id: 0,
        protocol_type: ""@,
        protocol_data: ""@,
        members: Seq::empty(),
    }
}

pub fn empty_description(group_id: &str) -> (r: ClassicGroupDescription)
    ensures
        r.deep_view() == empty_group(group_id@),
{
    let r = ClassicGroupDescription {
        group_id: group_id.to_owned(),
        state: "Empty".to_owned(),
        generation_id: 0,
        protocol_type: "".to_owned(),
        protocol_data: "".to_owned(),
        members: Vec::new(),
    };
    assert(r.members.deep_view() =~= Seq::empty());
    r
}

/// A member of a classic group in full.
pub open spec fn member_description(group: MemoryGroupView, member: GroupMemberView) -> ClassicGroupMemberDescriptionView {
    ClassicGroupMemberDescriptionView {
        member_id: member.member_id,
        group_instance_id: member.group_instance_id,
        client_id: member.client_id,
        client_host: member.client_host,
        member_metadata: member.metadata,
        member_assignment: if group.assignments.contains_key(member.member_id) {
            group.assignments[member.member_id]
        } else {
            Seq::empty()
        },
    }
}

/// A classic group in full, its members in the order of their ids.
pub open spec fn group_description(group_id: Seq<char>, group: MemoryGroupView) -> ClassicGroupDescriptionView {
    let members = classic_groups::listed(group.members);
    ClassicGroupDescriptionView {
        group_id,
        state: state_of(group),
        generation_id: group.generation_id,
        protocol_type: group.protocol_type,
        protocol_data: group.protocol_name,
        members: Seq::new(members.len(), |i: int| member_description(group, members[i])),
    }
}

/// What is told of a classic group.
pub open spec fn classic_described(s: StoreView, id: Seq<char>) -> Option<ClassicGroupDescriptionView> {
    if s.classic.groups.contains_key(id) {
        Some(group_description(id, s.classic.groups[id]))
    } else if has_offsets(s.log.offsets, id) {
        Some(empty_group(id))
    } else {
        None
    }
}

/// What is told of the classic groups of a list, by id.
pub open spec fn classics_described(s: StoreView, ids: Seq<Seq<char>>) -> Map<Seq<char>, ClassicGroupDescriptionView> {
    Map::new(
        |id: Seq<char>| ids.contains(id) && classic_described(s, id) is Some,
        |id: Seq<char>| classic_described(s, id)->0,
    )
}

fn describe_group(group_id: &str, group: &MemoryGroup) -> (r: ClassicGroupDescription)
    ensures
        r.deep_view() == group_description(group_id@, group.deep_view()),
{
    let ghost g = group.deep_view();
    let listed = classic_groups::listed_members(&group.members);
    let ghost all = listed.deep_view();
    let mut members: Vec<ClassicGroupMemberDescription> = Vec::new();
    let mut i: usize = 0;
    while i < listed.len()
        invariant
            i <= listed@.len(),
            members@.len() == i,
            g == group.deep_view(),
            all == listed.deep_view(),
            forall|j: int| 0 <= j < i ==> (#[trigger] members@[j]).deep_view() == member_description(g, all[j]),
        decreases listed@.len() - i,
    {
        let member = &listed[i];
        assert(all[i as int] == member.deep_view());
        let member_assignment: Vec<u8> = match group.assignments.get(&member.member_id) {
            Some(assignment) => assignment.duplicate(),
            None => {
                let none: Vec<u8> = Vec::new();
                assert(none.deep_view() =~= Seq::empty());
                none
            },
        };
        members.push(
            ClassicGroupMemberDescription {
                member_id: member.member_id.clone(),
                group_instance_id: member.group_instance_id.duplicate(),
                client_id: member.client_id.clone(),
                client_host: member.client_host.clone(),
                member_metadata: member.metadata.duplicate(),
                member_assignment,
            },
        );
        i = i + 1;
    }
    assert(members.deep_view() =~= group_description(group_id@, g).members);
    ClassicGroupDescription {
        group_id: group_id.to_owned(),
        state: find_state(group),
        generation_id: group.generation_id,
        protocol_type: group.protocol_type.clone(),
        protocol_data: group.protocol_name.clone(),
        members,
    }
}

/// Whether a group has members.
pub open spec fn is_active(s: StoreView, id: Seq<char>) -> bool {
    ||| s.classic.groups.contains_key(id) && s.classic.groups[id].members != Map::<Seq<char>, GroupMemberView>::empty()
    ||| s.consumer_groups.contains_key(id) && s.consumer_groups[id].members != Map::<Seq<char>, ConsumerMemberStateView>::empty()
    ||| s.streams_groups.contains_key(id) && s.streams_groups[id].members != Map::<Seq<char>, StreamsMemberView>::empty()
    ||| s.share_groups.contains_key(id) && s.share_groups[id].members != Map::<Seq<char>, ShareMemberView>::empty()
}

/// The groups without the first of an id: a classic, a consumer, a streams or a share group.
pub open spec fn without_group(s: StoreView, id: Seq<char>) -> StoreView {
    if s.classic.groups.contains_key(id) {
        StoreView { classic: classic_join::ClassicGroupsView { groups: s.classic.groups.remove(id), ..s.classic }, ..s }
    } else if s.consumer_groups.contains_key(id) {
        StoreView { consumer_groups: s.consumer_groups.remove(id), ..s }
    } else if s.streams_groups.contains_key(id) {
        StoreView { streams_groups: s.streams_groups.remove(id), ..s }
    } else if s.share_groups.contains_key(id) {
        StoreView { share_groups: s.share_groups.remove(id), ..s }
    } else {
        s
    }
}

/// The state after a group has been deleted with its offsets.
pub open spec fn group_deleted(s: StoreView, id: Seq<char>) -> (StoreView, Result<(), ControlErrorView>) {
    if is_active(s, id) {
        (s, Err(ControlErrorView::NonEmptyGroup(id)))
    } else if !s.classic.groups.contains_key(id) && !s.consumer_groups.contains_key(id) && !s.streams_groups.contains_key(id)
        && !s.share_groups.contains_key(id) && !has_offsets(s.log.offsets, id) {
        (s, Err(ControlErrorView::GroupNotFound(id)))
    } else {
        let after = without_group(s, id);
        (
            StoreView {
                log: LogStateView {
                    offsets: sorted_map::filtered(
                        s.log.offsets,
                        |key: (Seq<char>, PartitionKeyView), offset: CommittedOffsetView| key.0 != id,
                    ),
                    ..s.log
                },
                ..after
            },
            Ok(()),
        )
    }
}

/// The state after a member has been checked: `streams` is what a streams group of that id makes of the
/// member; without it the group stays as it is and has nothing against the member.
pub open spec fn member_checked(
    s: StoreView,
    group_id: Seq<char>,
    member_id: Seq<char>,
    instance: Option<Seq<char>>,
    generation_or_epoch: i32,
    streams: Option<StreamsCheckView>,
    now: int,
) -> (StoreView, Result<(), ControlErrorView>) {
    if member_id.len() == 0 && generation_or_epoch < 0 {
        (s, Ok(()))
    } else if s.consumer_groups.contains_key(group_id) {
        (s, consumer_queries::member_verdict(s.consumer_groups[group_id], member_id, generation_or_epoch))
    } else if s.streams_groups.contains_key(group_id) {
        match streams {
            Some(check) => (
                StoreView { streams_groups: s.streams_groups.insert(group_id, check.group), ..s },
                match check.refusal {
                    Some(refusal) => Err(refusal),
                    None => Ok(()),
                },
            ),
            None => (s, Ok(())),
        }
    } else {
        let (classic, outcome) = classic_members::checked(s.classic, group_id, generation_or_epoch, member_id, instance, now);
        (StoreView { classic, ..s }, outcome)
    }
}

impl Store {
    fn summarize(&self, id: &String, streams: &SortedMap<String, String>, shares: &SortedMap<String, String>) -> (r: Option<GroupSummary>)
        ensures
            r.deep_view() == summary(self.deep_view(), id@, streams.deep_view(), shares.deep_view()),
    {
        if let Some(state) = shares.get(id) {
            return Some(
                GroupSummary {
                    group_id: id.clone(),
                    protocol_type: "share".to_owned(),
                    state: state.clone(),
                    group_type: "Share".to_owned(),
                },
            );
        }
        if let Some(state) = streams.get(id) {
            return Some(
                GroupSummary {
                    group_id: id.clone(),
                    protocol_type: "streams".to_owned(),
                    state: state.clone(),
                    group_type: "Streams".to_owned(),
                },
            );
        }
        if let Some(group) = self.consumer_groups.get(id) {
            return Some(
                GroupSummary {
                    group_id: id.clone(),
                    protocol_type: "consumer".to_owned(),
                    state: consumer_queries::describe(group).state,
                    group_type: "Consumer".to_owned(),
                },
            );
        }
        if let Some(group) = self.classic.groups.get(id) {
            return Some(
                GroupSummary {
                    group_id: id.clone(),
                    protocol_type: group.protocol_type.clone(),
                    state: find_state(group),
                    group_type: "Classic".to_owned(),
                },
            );
        }
        if stores_offsets(&self.log.offsets, id.as_str()) {
            return Some(
                GroupSummary {
                    group_id: id.clone(),
                    protocol_type: "".to_owned(),
                    state: "Empty".to_owned(),
                    group_type: "Classic".to_owned(),
                },
            );
        }
        None
    }

    /// Lists all groups; `streams` and `shares` hold the names of the states of all streams and share
    /// groups. The caller has let every streams group go of the members whose sessions are over.
    pub fn list_groups(&self, streams: &SortedMap<String, String>, shares: &SortedMap<String, String>) -> (r: Vec<GroupSummary>)
        ensures
            r.deep_view() == listing(self.deep_view(), streams.deep_view(), shares.deep_view()),
    {
        let ghost s = self.deep_view();
        let ghost a = streams.deep_view();
        let ghost b = shares.deep_view();
        let mut ids: SortedMap<String, ()> = SortedMap::new();
        add_offset_ids(&mut ids, &self.log.offsets);
        add_ids(&mut ids, &self.classic.groups);
        add_ids(&mut ids, &self.consumer_groups);
        add_ids(&mut ids, streams);
        add_ids(&mut ids, shares);
        assert(ids.deep_view().dom() =~= group_ids(s, a, b));
        let list = ids.keys();
        let ghost all = list.deep_view();
        let mut r: Vec<GroupSummary> = Vec::new();
        let mut i: usize = 0;
        while i < list.len()
            invariant
                i <= list@.len(),
                r@.len() == i,
                s == self.deep_view(),
                a == streams.deep_view(),
                b == shares.deep_view(),
                all == list.deep_view(),
                all.to_set() == group_ids(s, a, b),
                forall|j: int| 0 <= j < i ==> (#[trigger] r@[j]).deep_view() == summary(s, all[j], a, b)->0,
            decreases list@.len() - i,
        {
            assert(all[i as int] == list@[i as int].deep_view());
            assert(all.to_set().contains(all[i as int]));
            r.push(self.summarize(&list[i], streams, shares).unwrap());
            i = i + 1;
        }
        assert(r.deep_view() =~= listing(s, a, b));
        r
    }

    /// Describes classic groups.
    pub fn describe_classic_groups(&self, group_ids: &[String]) -> (r: SortedMap<String, ClassicGroupDescription>)
        ensures
            r.deep_view() == classics_described(self.deep_view(), sorted_map::models(group_ids@)),
    {
        let ghost s = self.deep_view();
        let ghost all = sorted_map::models(group_ids@);
        let mut r: SortedMap<String, ClassicGroupDescription> = SortedMap::new();
        let mut i: usize = 0;
        while i < group_ids.len()
            invariant
                i <= group_ids@.len(),
                s == self.deep_view(),
                all == sorted_map::models(group_ids@),
                forall|id: Seq<char>| #[trigger] r.deep_view().contains_key(id) <==> all.take(i as int).to_set().contains(id)
                    && classic_described(s, id) is Some,
                forall|id: Seq<char>| #[trigger] r.deep_view().contains_key(id) ==> r.deep_view()[id] == classic_described(s, id)->0,
            decreases group_ids@.len() - i,
        {
            proof {
                assert(all[i as int] == group_ids@[i as int]@);
                sorted_map::prefix_grows(all, i as int);
            }
            let id = &group_ids[i];
            if let Some(group) = self.classic.groups.get(id) {
                r.insert(id.clone(), describe_group(id.as_str(), group));
            } else if stores_offsets(&self.log.offsets, id.as_str()) {
                r.insert(id.clone(), empty_description(id.as_str()));
            }
            i = i + 1;
        }
        assert(all.take(i as int) =~= all);
        assert(r.deep_view() =~= classics_described(s, all));
        r
    }

    fn has_members(&self, id: &String) -> (r: bool)
        ensures
            r == is_active(self.deep_view(), id@),
    {
        let classic = match self.classic.groups.get(id) {
            Some(group) => !group.members.is_empty(),
            None => false,
        };
        let consumer = match self.consumer_groups.get(id) {
            Some(group) => !group.members.is_empty(),
            None => false,
        };
        let streams = match self.streams_groups.get(id) {
            Some(group) => !group.members.is_empty(),
            None => false,
        };
        let share = match self.share_groups.get(id) {
            Some(group) => !group.members.is_empty(),
            None => false,
        };
        classic || consumer || streams || share
    }

    /// Deletes a group that has no members, with its offsets.
    pub fn delete_group(&mut self, group_id: &str) -> (r: Result<(), ControlError>)
        ensures
            (final(self).deep_view(), error::outcome(r)) == group_deleted(old(self).deep_view(), group_id@),
    {
        let ghost s = self.deep_view();
        let ghost g = group_id@;
        let id = group_id.to_owned();
        if self.has_members(&id) {
            return Err(ControlError::NonEmptyGroup(id));
        }
        let had_offsets = stores_offsets(&self.log.offsets, group_id);
        if self.classic.groups.contains_key(&id) {
            self.classic.groups.remove(&id);
        } else if self.consumer_groups.contains_key(&id) {
            self.consumer_groups.remove(&id);
        } else if self.streams_groups.contains_key(&id) {
            self.streams_groups.remove(&id);
        } else if self.share_groups.contains_key(&id) {
            self.share_groups.remove(&id);
        } else if !had_offsets {
            return Err(ControlError::GroupNotFound(id));
        }
        let ghost keep = |key: (Seq<char>, PartitionKeyView), offset: CommittedOffsetView| key.0 != g;
        let test = |key: &(String, PartitionKey), offset: &CommittedOffset| -> (b: bool)
            ensures b == keep(key.deep_view(), offset.deep_view())
        {
            !same_text(key.0.as_str(), group_id)
        };
        self.log.offsets.retain(test, Ghost(keep));
        assert(self.log.offsets.deep_view() =~= group_deleted(s, g).0.log.offsets);
        Ok(())
    }

    /// Checks a member of a group; `streams` is what a streams group of that id makes of the member.
    pub fn validate_group_member(
        &mut self,
        group_id: &str,
        member_id: &str,
        group_instance_id: Option<&str>,
        generation_or_epoch: i32,
        streams: Option<StreamsCheck>,
        now: Timestamp,
    ) -> (r: Result<(), ControlError>)
        requires
            classic_join::generations_left(old(self).deep_view().classic, group_id@, 1),
        ensures
            (final(self).deep_view(), error::outcome(r)) == member_checked(
                old(self).deep_view(),
                group_id@,
                member_id@,
                group_instance_id.deep_view(),
                generation_or_epoch,
                streams.deep_view(),
                now.deep_view(),
            ),
    {
        if member_id.is_empty() && generation_or_epoch < 0 {
            return Ok(());
        }
        let id = group_id.to_owned();
        if let Some(group) = self.consumer_groups.get(&id) {
            return consumer_queries::validate_member(group, member_id, generation_or_epoch);
        }
        if self.streams_groups.contains_key(&id) {
            if let Some(check) = streams {
                self.streams_groups.insert(id, check.group);
                if let Some(refusal) = check.refusal {
                    return Err(refusal);
                }
            }
            return Ok(());
        }
        self.classic.validate_group_member(group_id, generation_or_epoch, member_id, group_instance_id, now)
    }
}

} // verus!
