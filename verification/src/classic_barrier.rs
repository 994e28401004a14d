//! Gathering the members of a classic group into one generation.

use crate::classic_groups;
use crate::classic_groups::{
    listed_members, protocol_sets, same_rebalance, smallest_member, MemoryGroup, MemoryGroupView,
};
use crate::classic_join;
use crate::classic_join::{
    clear_seats, is_compatible, make_member, make_member_id, resolve_member_id, seat, ClassicGroups,
    ClassicGroupsView, JoinRequest, JoinRequestView,
};
use crate::error;
use crate::error::{ControlError, ControlErrorView};
use crate::groups;
use crate::groups::{GroupMember, GroupMemberView, GroupProtocol, JoinGroupResult, JoinGroupResultView};
use crate::sorted_map;
use crate::sorted_map::{Duplicate, SortedMap};
use crate::text::same_text;
use crate::time;
use crate::time::Timestamp;
use vstd::prelude::*;

verus! {

/// How long a member that waits for the others is told to wait before it asks again.
pub const RETRY_AFTER_MS: i64 = 25;

/// Whether `t` is the longest rebalance timeout of the members.
pub open spec fn is_longest_timeout(members: Map<Seq<char>, GroupMemberView>, t: i32) -> bool {
    &&& exists|id: Seq<char>| #[trigger] members.contains_key(id) && members[id].rebalance_timeout_ms == t
    &&& forall|id: Seq<char>| #[trigger] members.contains_key(id) ==> members[id].rebalance_timeout_ms <= t
}

/// The longest rebalance timeout of the members; one millisecond where there is none.
pub open spec fn longest_timeout(members: Map<Seq<char>, GroupMemberView>) -> i32 {
    if exists|t: i32| is_longest_timeout(members, t) {
        choose|t: i32| is_longest_timeout(members, t)
    } else {
        1
    }
}

/// The group as it starts to gather a new generation.
pub open spec fn gathering(g: MemoryGroupView, id: u128, now: int, initial: bool, initial_delay_ms: i32) -> MemoryGroupView {
    let timeout = longest_timeout(g.members);
    let delay = if initial_delay_ms < timeout {
        initial_delay_ms
    } else {
        timeout
    };
    MemoryGroupView {
        rebalance_id: Some(id),
        rebalance_pending: true,
        rebalance_started_at: Some(now),
        rebalance_deadline: Some(time::instant_after(now, timeout as int)),
        initial_rebalance_deadline: if initial {
            Some(time::instant_after(now, delay as int))
        } else {
            None
        },
        assignments: Map::empty(),
        leader: if g.leader.len() == 0 {
            classic_groups::smallest(g.members.dom())
        } else {
            g.leader
        },
        ..g
    }
}

/// The group with a deadline that leaves every member the timeout that it asked for.
pub open spec fn with_later_deadline(g: MemoryGroupView) -> MemoryGroupView {
    match g.rebalance_started_at {
        None => g,
        Some(start) => {
            let deadline = time::instant_after(start, longest_timeout(g.members) as int);
            MemoryGroupView {
                rebalance_deadline: match g.rebalance_deadline {
                    None => Some(deadline),
                    Some(current) => Some(time::later(current, deadline)),
                },
                ..g
            }
        },
    }
}

/// The group with its initial delay started anew, up to the deadline.
pub open spec fn with_later_start(g: MemoryGroupView, now: int, initial_delay_ms: i32) -> MemoryGroupView {
    match g.rebalance_deadline {
        None => g,
        Some(deadline) => MemoryGroupView {
            initial_rebalance_deadline: Some(time::earlier(time::instant_after(now, initial_delay_ms as int), deadline)),
            ..g
        },
    }
}

/// Whether a member has joined the rebalance of the group.
pub open spec fn has_joined(g: MemoryGroupView, member: GroupMemberView) -> bool {
    member.joined_rebalance_id == g.rebalance_id
}

/// Whether the rebalance has run out of time.
pub open spec fn timed_out(g: MemoryGroupView, now: int) -> bool {
    g.rebalance_deadline is Some && g.rebalance_deadline->0 <= now
}

/// Whether every member has joined the rebalance of the group.
pub open spec fn all_joined(g: MemoryGroupView) -> bool {
    forall|id: Seq<char>| #[trigger] g.members.contains_key(id) ==> has_joined(g, g.members[id])
}

/// Whether the generation that the group gathers is complete.
pub open spec fn ready(g: MemoryGroupView, now: int) -> bool {
    timed_out(g, now) || (all_joined(g) && (g.initial_rebalance_deadline is None || g.initial_rebalance_deadline->0 <= now))
}

/// Whether a member loses its seat when the rebalance runs out of time: members with an instance id
/// keep theirs.
pub open spec fn left_behind(g: MemoryGroupView, member: GroupMemberView) -> bool {
    member.group_instance_id is None && !has_joined(g, member)
}

/// The group after its rebalance has ended: those left behind are gone, the leader is a member that
/// joined, and the generation is the next one.
pub open spec fn gathered(g: MemoryGroupView, now: int) -> MemoryGroupView {
    let rest = if timed_out(g, now) {
        MemoryGroupView {
            members: sorted_map::filtered(g.members, |id: Seq<char>, member: GroupMemberView| !left_behind(g, member)),
            assignments: sorted_map::filtered(
                g.assignments,
                |id: Seq<char>, bytes: Seq<u8>| !(g.members.contains_key(id) && left_behind(g, g.members[id])),
            ),
            ..g
        }
    } else {
        g
    };
    let led = MemoryGroupView {
        leader: if rest.members.contains_key(rest.leader) && has_joined(rest, rest.members[rest.leader]) {
            rest.leader
        } else {
            classic_groups::smallest(
                sorted_map::filtered(rest.members, |id: Seq<char>, member: GroupMemberView| has_joined(rest, member)).dom(),
            )
        },
        ..rest
    };
    let spoken = match groups::selected(classic_groups::member_sets(led.members)) {
        Some(name) => classic_groups::speaking(led, name),
        None => led,
    };
    MemoryGroupView {
        generation_id: (g.generation_id + 1) as i32,
        rebalance_pending: false,
        rebalance_started_at: None,
        rebalance_deadline: None,
        initial_rebalance_deadline: None,
        ..spoken
    }
}

/// The group after it was checked whether its rebalance has ended.
pub open spec fn progressed(g: MemoryGroupView, now: int) -> MemoryGroupView {
    if g.rebalance_pending && ready(g, now) {
        gathered(g, now)
    } else {
        g
    }
}

/// What a member learns of the group.
pub open spec fn told(g: MemoryGroupView, member_id: Seq<char>, leader: Seq<char>, skip_assignment: bool) -> JoinGroupResultView {
    JoinGroupResultView {
        generation_id: g.generation_id,
        protocol_type: g.protocol_type,
        protocol_name: g.protocol_name,
        leader,
        member_id,
        members: classic_groups::listed(g.members),
        skip_assignment,
        pending_rebalance: if g.rebalance_pending {
            g.rebalance_id
        } else {
            None
        },
        retry_after_ms: if g.rebalance_pending {
            RETRY_AFTER_MS
        } else {
            0
        },
    }
}

/// The outcome for a member that takes a seat and, where one is due, a rebalance.
pub open spec fn beginning(
    g: MemoryGroupView,
    request: JoinRequestView,
    id: Seq<char>,
    replaced: Option<Seq<char>>,
    existing: bool,
    expired: bool,
    now: int,
    fresh_rebalance: u128,
) -> (MemoryGroupView, JoinGroupResultView) {
    let incoming = groups::offered(request.protocols);
    let was_empty = g.members.dom().len() == 0;
    let was_stable = !g.rebalance_pending && !was_empty && g.assignments.dom().len() == g.members.dom().len();
    let was_completing = !g.rebalance_pending && !was_empty && !was_stable;
    let name = classic_join::agreed(classic_join::others(g.members, id, replaced), incoming)->0;
    let previous = classic_join::predecessor(g, id, replaced, existing);
    let protocol_changed = g.protocol_name.len() > 0 && g.protocol_name != name;
    let member_changed = previous is Some && previous->0.protocols != incoming;
    let unchanged = previous is Some && !member_changed && !protocol_changed;
    let no_rebalance = !expired && ((replaced is Some && was_stable && !protocol_changed) || (replaced is None && unchanged
        && was_completing) || (replaced is None && unchanged && was_stable && g.leader != id));
    let active = if g.rebalance_pending {
        g.rebalance_id
    } else if no_rebalance {
        None
    } else {
        Some(fresh_rebalance)
    };
    let carried = if active is None && previous is Some {
        previous->0.joined_rebalance_id
    } else {
        active
    };
    let full = classic_join::seated(
        g,
        request.protocol_type,
        classic_join::newcomer(request, id, name, request.rebalance_timeout_ms, now, carried),
        replaced,
        name,
    );
    if no_rebalance {
        let led = if full.leader.len() == 0 {
            MemoryGroupView { leader: id, ..full }
        } else {
            full
        };
        let leader = if replaced == Some(g.leader) && request.api_version < 9 {
            g.leader
        } else {
            led.leader
        };
        (led, told(led, id, leader, request.api_version >= 9 && replaced is Some && led.leader == id))
    } else {
        let waiting = if !full.rebalance_pending {
            gathering(full, fresh_rebalance, now, was_empty, request.initial_rebalance_delay_ms)
        } else if full.initial_rebalance_deadline is Some {
            with_later_start(with_later_deadline(full), now, request.initial_rebalance_delay_ms)
        } else {
            with_later_deadline(full)
        };
        let after = progressed(waiting, now);
        (after, told(after, id, after.leader, false))
    }
}

/// The groups after lapsed ids and expired members of one group have been cleared away.
pub open spec fn swept(s: ClassicGroupsView, group_id: Seq<char>, now: int) -> ClassicGroupsView {
    ClassicGroupsView {
        groups: if s.groups.contains_key(group_id) {
            s.groups.insert(group_id, classic_groups::without_expired(s.groups[group_id], now))
        } else {
            s.groups
        },
        pending_members: classic_join::unlapsed(s.pending_members, group_id, now),
    }
}

/// Whether a request to join through the barrier is complete.
pub open spec fn complete(request: JoinRequestView) -> bool {
    classic_join::complete(request) && request.rebalance_timeout_ms > 0 && request.initial_rebalance_delay_ms >= 0 && request.max_size > 0
}

/// Whether the group exists and has no seat left.
pub open spec fn full_house(group: Option<MemoryGroupView>, max_size: i32) -> bool {
    group is Some && group->0.members.dom().len() >= max_size
}

/// The groups and the answer after a request to join through the barrier.
pub open spec fn begun(s: ClassicGroupsView, request: JoinRequestView, now: int, fresh: Seq<char>, fresh_rebalance: u128) -> (
    ClassicGroupsView,
    Result<JoinGroupResultView, ControlErrorView>,
) {
    if !complete(request) {
        (
            s,
            Err(
                ControlErrorView::InvalidRequest(
                    "group, protocols, positive timeouts and maximum size, and a non-negative initial delay are required"@,
                ),
            ),
        )
    } else {
        let gid = request.group_id;
        let c = swept(s, gid, now);
        let expired = s.groups.contains_key(gid) && classic_groups::some_expired(s.groups[gid], now);
        let group = c.groups.get(gid);
        let requested = request.requested_member_id;
        let full = ControlErrorView::GroupMaxSizeReached(gid);
        if group is Some && !classic_join::compatible(group->0, request.protocol_type, groups::offered(request.protocols)) {
            (c, Err(ControlErrorView::InconsistentGroupProtocol(gid)))
        } else if request.group_instance_id is None && requested.len() == 0 && request.api_version >= 4 {
            if full_house(group, request.max_size) {
                (c, Err(full))
            } else {
                let id = classic_join::made_member_id(request.client_id, fresh);
                (
                    ClassicGroupsView {
                        pending_members: c.pending_members.insert((gid, id), time::instant_after(now, request.session_timeout_ms as int)),
                        ..c
                    },
                    Err(ControlErrorView::MemberIdRequired { member_id: id }),
                )
            }
        } else {
            let existing = requested.len() > 0 && classic_join::is_member(group, requested);
            match classic_join::resolved(group, c.pending_members, request, fresh) {
                Err(error) => (c, Err(error)),
                Ok((id, replaced)) => if !existing && replaced is None && full_house(group, request.max_size) {
                    (c, Err(full))
                } else {
                    let g = if group is Some {
                        group->0
                    } else {
                        classic_groups::new_group()
                    };
                    let (after, answer) = beginning(g, request, id, replaced, existing, expired, now, fresh_rebalance);
                    (
                        ClassicGroupsView {
                            groups: c.groups.insert(gid, after),
                            pending_members: if request.group_instance_id is None && requested.len() > 0 && !existing {
                                c.pending_members.remove((gid, id))
                            } else {
                                c.pending_members
                            },
                        },
                        Ok(answer),
                    )
                },
            }
        }
    }
}

/// The groups and the answer after a member has asked how its rebalance stands.
pub open spec fn polled(
    s: ClassicGroupsView,
    group_id: Seq<char>,
    member_id: Seq<char>,
    instance: Option<Seq<char>>,
    rebalance_id: u128,
    now: int,
) -> (ClassicGroupsView, Result<JoinGroupResultView, ControlErrorView>) {
    if !s.groups.contains_key(group_id) {
        (s, Err(ControlErrorView::GroupNotFound(group_id)))
    } else {
        let g = s.groups[group_id];
        match classic_groups::identity_error(g.members, group_id, member_id, instance) {
            Some(error) => (s, Err(error)),
            None => if g.rebalance_id != Some(rebalance_id) {
                (s, Err(ControlErrorView::RebalanceInProgress(group_id)))
            } else {
                let after = progressed(classic_groups::without_expired(g, now), now);
                (
                    ClassicGroupsView { groups: s.groups.insert(group_id, after), ..s },
                    Ok(told(after, member_id, after.leader, false)),
                )
            },
        }
    }
}

fn longest_rebalance_timeout(members: &SortedMap<String, GroupMember>) -> (r: i32)
    ensures
        r == longest_timeout(members.deep_view()),
{
    let ids = members.keys();
    let ghost all = ids.deep_view();
    let ghost m = members.deep_view();
    let mut longest: Option<i32> = None;
    let mut i: usize = 0;
    while i < ids.len()
        invariant
            i <= ids@.len(),
            all == ids.deep_view(),
            m == members.deep_view(),
            all.to_set() == m.dom(),
            longest is None <==> i == 0,
            longest is Some ==> exists|id: Seq<char>| #[trigger] m.contains_key(id) && m[id].rebalance_timeout_ms == longest->0,
            longest is Some ==> forall|j: int| 0 <= j < i ==> m[#[trigger] all[j]].rebalance_timeout_ms <= longest->0,
        decreases ids@.len() - i,
    {
        proof {
            assert(all[i as int] == ids@[i as int].deep_view());
            assert(all.contains(all[i as int]));
            assert(m.contains_key(all[i as int]));
        }
        let timeout: i32 = match members.get(&ids[i]) {
            Some(member) => member.rebalance_timeout_ms,
            None => 1,
        };
        match longest {
            Some(t) => {
                if timeout > t {
                    longest = Some(timeout);
                }
            },
            None => {
                longest = Some(timeout);
            },
        }
        i = i + 1;
    }
    match longest {
        Some(t) => {
            proof {
                assert forall|id: Seq<char>| #[trigger] m.contains_key(id) implies m[id].rebalance_timeout_ms <= t by {
                    assert(all.to_set().contains(id));
                    assert(all.contains(id));
                    let j = choose|j: int| 0 <= j < all.len() && all[j] == id;
                    assert(m[all[j]].rebalance_timeout_ms <= t);
                }
                assert(is_longest_timeout(m, t));
                let chosen = choose|t: i32| is_longest_timeout(m, t);
                assert(chosen == t);
            }
            t
        },
        None => {
            proof {
                assert forall|t: i32| !is_longest_timeout(m, t) by {
                    if is_longest_timeout(m, t) {
                        let id = choose|id: Seq<char>| #[trigger] m.contains_key(id) && m[id].rebalance_timeout_ms == t;
                        assert(all.to_set().contains(id));
                        assert(all.contains(id));
                    }
                }
            }
            1
        },
    }
}

fn start_rebalance(group: &mut MemoryGroup, rebalance_id: u128, now: Timestamp, initial: bool, initial_delay_ms: i32)
    ensures
        final(group).deep_view() == gathering(old(group).deep_view(), rebalance_id, now.deep_view(), initial, initial_delay_ms),
{
    let timeout_ms: i32 = longest_rebalance_timeout(&group.members);
    let delay_ms: i32 = if initial_delay_ms < timeout_ms {
        initial_delay_ms
    } else {
        timeout_ms
    };
    group.rebalance_id = Some(rebalance_id);
    group.rebalance_pending = true;
    group.rebalance_started_at = Some(now);
    group.rebalance_deadline = Some(now.plus_millis(timeout_ms));
    group.initial_rebalance_deadline = if initial {
        Some(now.plus_millis(delay_ms))
    } else {
        None
    };
    group.assignments.clear();
    if group.leader.as_str().is_empty() {
        group.leader = smallest_member(&group.members);
    }
}

fn extend_initial_delay(group: &mut MemoryGroup, now: Timestamp, initial_delay_ms: i32)
    ensures
        final(group).deep_view() == with_later_start(old(group).deep_view(), now.deep_view(), initial_delay_ms),
{
    if let Some(deadline) = group.rebalance_deadline {
        let start = now.plus_millis(initial_delay_ms);
        group.initial_rebalance_deadline = if deadline.nanos < start.nanos {
            Some(deadline)
        } else {
            Some(start)
        };
    }
}

fn extend_rebalance_deadline(group: &mut MemoryGroup)
    ensures
        final(group).deep_view() == with_later_deadline(old(group).deep_view()),
{
    if let Some(start) = group.rebalance_started_at {
        let deadline = start.plus_millis(longest_rebalance_timeout(&group.members));
        group.rebalance_deadline = match group.rebalance_deadline {
            None => Some(deadline),
            Some(current) => if current.nanos < deadline.nanos {
                Some(deadline)
            } else {
                Some(current)
            },
        };
    }
}

/// Ends the group's rebalance where every member has joined it or its time has run out.
pub fn finish_if_ready(group: &mut MemoryGroup, now: Timestamp)
    requires
        old(group).generation_id < i32::MAX,
    ensures
        final(group).deep_view() == progressed(old(group).deep_view(), now.deep_view()),
{
    if !group.rebalance_pending {
        return;
    }
    let ghost g = group.deep_view();
    let rebalance_id = group.rebalance_id;
    let ghost late = |id: Seq<char>, member: GroupMemberView| !has_joined(g, member);
    let is_late = |id: &String, member: &GroupMember| -> (b: bool)
        ensures b == late(id.deep_view(), member.deep_view())
    {
        !same_rebalance(member.joined_rebalance_id, rebalance_id)
    };
    let some_late = group.members.any(is_late, Ghost(late));
    assert(some_late == !all_joined(g)) by {
        if some_late {
            let id = choose|id: Seq<char>| #[trigger] g.members.contains_key(id) && late(id, g.members[id]);
            assert(g.members.contains_key(id) && !has_joined(g, g.members[id]));
        } else {
            assert forall|id: Seq<char>| #[trigger] g.members.contains_key(id) implies has_joined(g, g.members[id]) by {
                assert(!(g.members.contains_key(id) && late(id, g.members[id])));
            }
        }
    }
    let initial_elapsed = match group.initial_rebalance_deadline {
        Some(deadline) => deadline.nanos <= now.nanos,
        None => true,
    };
    let out_of_time = match group.rebalance_deadline {
        Some(deadline) => deadline.nanos <= now.nanos,
        None => false,
    };
    if !(out_of_time || (!some_late && initial_elapsed)) {
        return;
    }
    if out_of_time {
        let ghost keep = |id: Seq<char>, bytes: Seq<u8>| !(g.members.contains_key(id) && left_behind(g, g.members[id]));
        let members = &group.members;
        let keeps = |id: &String, bytes: &Vec<u8>| -> (b: bool)
            ensures b == keep(id.deep_view(), bytes.deep_view())
        {
            match members.get(id) {
                None => true,
                Some(member) => member.group_instance_id.is_some() || same_rebalance(member.joined_rebalance_id, rebalance_id),
            }
        };
        group.assignments.retain(keeps, Ghost(keep));
        let ghost stay = |id: Seq<char>, member: GroupMemberView| !left_behind(g, member);
        let stays = |id: &String, member: &GroupMember| -> (b: bool)
            ensures b == stay(id.deep_view(), member.deep_view())
        {
            member.group_instance_id.is_some() || same_rebalance(member.joined_rebalance_id, rebalance_id)
        };
        group.members.retain(stays, Ghost(stay));
    }
    let ghost rest = group.deep_view();
    let leader_joined = match group.members.get(&group.leader) {
        Some(member) => same_rebalance(member.joined_rebalance_id, rebalance_id),
        None => false,
    };
    if !leader_joined {
        let mut joined = group.members.duplicate();
        let ghost here = |id: Seq<char>, member: GroupMemberView| has_joined(rest, member);
        let is_here = |id: &String, member: &GroupMember| -> (b: bool)
            ensures b == here(id.deep_view(), member.deep_view())
        {
            same_rebalance(member.joined_rebalance_id, rebalance_id)
        };
        joined.retain(is_here, Ghost(here));
        group.leader = smallest_member(&joined);
    }
    let name = {
        let sets = protocol_sets(&group.members);
        groups::select_protocol(sets.as_slice())
    };
    if let Some(name) = name {
        group.apply_protocol(name.as_str());
    }
    group.generation_id = group.generation_id + 1;
    group.rebalance_pending = false;
    group.rebalance_started_at = None;
    group.rebalance_deadline = None;
    group.initial_rebalance_deadline = None;
}

fn tell(group: &MemoryGroup, member_id: String, leader: String, skip_assignment: bool) -> (r: JoinGroupResult)
    ensures
        r.deep_view() == told(group.deep_view(), member_id@, leader@, skip_assignment),
{
    JoinGroupResult {
        generation_id: group.generation_id,
        protocol_type: group.protocol_type.clone(),
        protocol_name: group.protocol_name.clone(),
        leader,
        member_id,
        members: listed_members(&group.members),
        skip_assignment,
        pending_rebalance: if group.rebalance_pending {
            group.rebalance_id
        } else {
            None
        },
        retry_after_ms: if group.rebalance_pending {
            RETRY_AFTER_MS
        } else {
            0
        },
    }
}

pub(crate) fn same_offers(a: &Vec<GroupProtocol>, b: &Vec<GroupProtocol>) -> (r: bool)
    ensures
        r == (a.deep_view() == b.deep_view()),
{
    if a.len() != b.len() {
        assert(a.deep_view().len() != b.deep_view().len());
        return false;
    }
    let mut i: usize = 0;
    while i < a.len()
        invariant
            i <= a@.len(),
            a@.len() == b@.len(),
            forall|j: int| 0 <= j < i ==> (#[trigger] a@[j]).deep_view() == b@[j].deep_view(),
        decreases a@.len() - i,
    {
        assert(a.deep_view()[i as int] == a@[i as int].deep_view());
        assert(b.deep_view()[i as int] == b@[i as int].deep_view());
        if !same_text(a[i].name.as_str(), b[i].name.as_str()) || !same_bytes(&a[i].metadata, &b[i].metadata) {
            return false;
        }
        i = i + 1;
    }
    assert(a.deep_view() =~= b.deep_view());
    true
}

/// Whether two byte strings are equal.
pub fn same_bytes(a: &Vec<u8>, b: &Vec<u8>) -> (r: bool)
    ensures
        r == (a.deep_view() == b.deep_view()),
{
    if a.len() != b.len() {
        assert(a.deep_view().len() != b.deep_view().len());
        return false;
    }
    let mut i: usize = 0;
    while i < a.len()
        invariant
            i <= a@.len(),
            a@.len() == b@.len(),
            forall|j: int| 0 <= j < i ==> a@[j] == b@[j],
        decreases a@.len() - i,
    {
        if a[i] != b[i] {
            assert(a.deep_view()[i as int] != b.deep_view()[i as int]);
            return false;
        }
        i = i + 1;
    }
    assert(a.deep_view() =~= b.deep_view());
    true
}

fn take_seat(
    group: &mut MemoryGroup,
    request: &JoinRequest,
    id: String,
    replaced: Option<String>,
    existing: bool,
    expired: bool,
    incoming: Vec<GroupProtocol>,
    now: Timestamp,
    fresh_rebalance: u128,
) -> (r: JoinGroupResult)
    requires
        old(group).generation_id < i32::MAX,
        incoming.deep_view() == groups::offered(request.deep_view().protocols),
        classic_join::agreed(old(group).deep_view().members, incoming.deep_view()) is Some,
        sorted_map::lists_in_order::<String>(classic_groups::ordered(old(group).deep_view().members.dom()), old(group).deep_view().members.dom()),
    ensures
        (final(group).deep_view(), r.deep_view()) == beginning(
            old(group).deep_view(),
            request.deep_view(),
            id@,
            replaced.deep_view(),
            existing,
            expired,
            now.deep_view(),
            fresh_rebalance,
        ),
{
    let ghost g = group.deep_view();
    let member_count: usize = group.members.len();
    let was_empty = member_count == 0;
    let was_stable = !group.rebalance_pending && !was_empty && group.assignments.len() == member_count;
    let was_completing = !group.rebalance_pending && !was_empty && !was_stable;
    let old_leader = group.leader.clone();
    let old_name = group.protocol_name.clone();
    let (name, previous) = clear_seats(group, &id, &replaced, existing, &incoming);
    let protocol_changed = !old_name.as_str().is_empty() && !same_text(old_name.as_str(), name.as_str());
    let (unchanged, carried) = match &previous {
        Some(member) => (same_offers(&member.protocols, &incoming) && !protocol_changed, member.joined_rebalance_id),
        None => (false, None),
    };
    let leads = same_text(old_leader.as_str(), id.as_str());
    let no_rebalance = !expired && ((replaced.is_some() && was_stable && !protocol_changed) || (replaced.is_none() && unchanged
        && was_completing) || (replaced.is_none() && unchanged && was_stable && !leads));
    let active = if group.rebalance_pending {
        group.rebalance_id
    } else if no_rebalance {
        None
    } else {
        Some(fresh_rebalance)
    };
    let joined = if active.is_none() {
        carried
    } else {
        active
    };
    let member = make_member(request, &id, incoming, &name, request.rebalance_timeout_ms, now, joined);
    seat(group, request.protocol_type.as_str(), member, &replaced, name.as_str(), Ghost(g));
    if no_rebalance {
        if group.leader.as_str().is_empty() {
            group.leader = id.clone();
        }
        let skip_assignment = request.api_version >= 9 && replaced.is_some() && same_text(group.leader.as_str(), id.as_str());
        let took_over_leader = match &replaced {
            Some(old_id) => same_text(old_id.as_str(), old_leader.as_str()),
            None => false,
        };
        let leader = if took_over_leader && request.api_version < 9 {
            old_leader
        } else {
            group.leader.clone()
        };
        return tell(group, id, leader, skip_assignment);
    }
    if !group.rebalance_pending {
        start_rebalance(group, fresh_rebalance, now, was_empty, request.initial_rebalance_delay_ms);
    } else if group.initial_rebalance_deadline.is_some() {
        extend_rebalance_deadline(group);
        extend_initial_delay(group, now, request.initial_rebalance_delay_ms);
    } else {
        extend_rebalance_deadline(group);
    }
    finish_if_ready(group, now);
    let leader = group.leader.clone();
    tell(group, id, leader, false)
}

impl ClassicGroups {
    fn sweep(&mut self, group_id: &String, now: Timestamp) -> (expired: bool)
        ensures
            final(self).deep_view() == swept(old(self).deep_view(), group_id@, now.deep_view()),
            expired == (old(self).deep_view().groups.contains_key(group_id@) && classic_groups::some_expired(
                old(self).deep_view().groups[group_id@],
                now.deep_view(),
            )),
    {
        self.drop_lapsed(group_id.as_str(), now);
        match self.groups.remove(group_id) {
            None => {
                proof {
                    let groups = old(self).deep_view().groups;
                    assert(groups.remove(group_id@) =~= groups);
                }
                false
            },
            Some(mut group) => {
                let expired = group.remove_expired_members(now);
                self.groups.insert(group_id.clone(), group);
                proof {
                    let groups = old(self).deep_view().groups;
                    let after = classic_groups::without_expired(groups[group_id@], now.deep_view());
                    assert(groups.remove(group_id@).insert(group_id@, after) =~= groups.insert(group_id@, after));
                }
                expired
            },
        }
    }

    fn is_full(&self, group_id: &String, max_size: i32) -> (r: bool)
        requires
            max_size > 0,
        ensures
            r == full_house(self.deep_view().groups.get(group_id@), max_size),
    {
        match self.groups.get(group_id) {
            Some(group) => group.members.len() >= max_size as usize,
            None => false,
        }
    }

    /// Lets a member join a group, and gathers the other members into the same generation.
    /// `fresh` is the text from which a new member id is made, `fresh_rebalance` the id of a
    /// rebalance that starts here.
    pub fn begin_join_group(&mut self, request: &JoinRequest, now: Timestamp, fresh: &str, fresh_rebalance: u128) -> (r: Result<
        JoinGroupResult,
        ControlError,
    >)
        requires
            classic_join::generations_left(old(self).deep_view(), request.deep_view().group_id, 1),
        ensures
            (final(self).deep_view(), error::outcome(r)) == begun(
                old(self).deep_view(),
                request.deep_view(),
                now.deep_view(),
                fresh@,
                fresh_rebalance,
            ),
    {
        let group_id = &request.group_id;
        assert(request.deep_view().protocols.len() == request.protocols@.len());
        if group_id.as_str().is_empty() || request.protocol_type.as_str().is_empty() || request.protocols.len() == 0
            || request.session_timeout_ms <= 0 || request.rebalance_timeout_ms <= 0 || request.initial_rebalance_delay_ms < 0
            || request.max_size <= 0 {
            return Err(
                ControlError::InvalidRequest(
                    "group, protocols, positive timeouts and maximum size, and a non-negative initial delay are required".to_owned(),
                ),
            );
        }
        let expired = self.sweep(group_id, now);
        let ghost c = self.deep_view();
        let incoming = groups::protocols(request.protocols.as_slice());
        assert(sorted_map::models(request.protocols@) =~= request.protocols.deep_view());
        if let Some(group) = self.groups.get(group_id) {
            if !is_compatible(group, request.protocol_type.as_str(), &incoming) {
                return Err(ControlError::InconsistentGroupProtocol(group_id.clone()));
            }
        }
        let requested = &request.requested_member_id;
        if request.group_instance_id.is_none() && requested.as_str().is_empty() && request.api_version >= 4 {
            if self.is_full(group_id, request.max_size) {
                return Err(ControlError::GroupMaxSizeReached(group_id.clone()));
            }
            let member_id = make_member_id(request.client_id.as_str(), fresh);
            self.pending_members.insert((group_id.clone(), member_id.clone()), now.plus_millis(request.session_timeout_ms));
            return Err(ControlError::MemberIdRequired { member_id });
        }
        let existing = !requested.as_str().is_empty() && match self.groups.get(group_id) {
            Some(group) => group.members.contains_key(requested),
            None => false,
        };
        let (member_id, replaced) = match resolve_member_id(self.groups.get(group_id), &self.pending_members, request, fresh) {
            Err(error) => {
                return Err(error);
            },
            Ok(resolved) => resolved,
        };
        if !existing && replaced.is_none() && self.is_full(group_id, request.max_size) {
            return Err(ControlError::GroupMaxSizeReached(group_id.clone()));
        }
        if request.group_instance_id.is_none() && !requested.as_str().is_empty() && !existing {
            self.pending_members.remove(&(group_id.clone(), member_id.clone()));
        }
        let mut group = match self.groups.remove(group_id) {
            Some(group) => group,
            None => MemoryGroup::new(),
        };
        proof {
            if !c.groups.contains_key(group_id@) {
                classic_join::alone_agrees(incoming.deep_view());
            }
        }
        let answer = take_seat(&mut group, request, member_id, replaced, existing, expired, incoming, now, fresh_rebalance);
        let ghost after = group.deep_view();
        self.groups.insert(group_id.clone(), group);
        assert(c.groups.remove(group_id@).insert(group_id@, after) =~= c.groups.insert(group_id@, after));
        Ok(answer)
    }

    /// Tells a member how the rebalance stands that it has joined.
    pub fn poll_join_group(
        &mut self,
        group_id: &str,
        member_id: &str,
        group_instance_id: Option<&str>,
        rebalance_id: u128,
        now: Timestamp,
    ) -> (r: Result<JoinGroupResult, ControlError>)
        requires
            classic_join::generations_left(old(self).deep_view(), group_id@, 1),
        ensures
            (final(self).deep_view(), error::outcome(r)) == polled(
                old(self).deep_view(),
                group_id@,
                member_id@,
                group_instance_id.deep_view(),
                rebalance_id,
                now.deep_view(),
            ),
    {
        let ghost s = self.deep_view();
        let key = group_id.to_owned();
        match self.groups.get(&key) {
            None => {
                return Err(ControlError::GroupNotFound(key));
            },
            Some(group) => {
                if let Err(error) = group.validate_member_identity(group_id, member_id, group_instance_id) {
                    return Err(error);
                }
                if !same_rebalance(group.rebalance_id, Some(rebalance_id)) {
                    return Err(ControlError::RebalanceInProgress(key));
                }
            },
        }
        let mut group = self.groups.remove(&key).unwrap();
        group.remove_expired_members(now);
        finish_if_ready(&mut group, now);
        let leader = group.leader.clone();
        let answer = tell(&group, member_id.to_owned(), leader, false);
        let ghost after = group.deep_view();
        self.groups.insert(key, group);
        assert(s.groups.remove(group_id@).insert(group_id@, after) =~= s.groups.insert(group_id@, after));
        Ok(answer)
    }
}

} // verus!
