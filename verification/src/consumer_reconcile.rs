//! Moving a member of a consumer group towards its target assignment.

use crate::consumer_types;
use crate::consumer_types::{
    assigned_partitions, assignment_names, group_by_topic, is_same_set, is_subset, list_hand,
    ConsumerGroupHeartbeatResult, ConsumerGroupHeartbeatResultView, ConsumerGroupState, ConsumerGroupStateView,
    ConsumerMemberState, ConsumerMemberStateView,
};
use crate::member_epoch;
use crate::sorted_map;
use crate::sorted_map::{Duplicate, SortedMap};
use crate::text::same_text;
use vstd::prelude::*;

verus! {

/// The partitions that other members own.
pub open spec fn owned_by_others(members: Map<Seq<char>, ConsumerMemberStateView>, member_id: Seq<char>) -> Set<(u128, i32)> {
    Set::new(
        |p: (u128, i32)|
            exists|id: Seq<char>|
                #[trigger] members.contains_key(id) && id != member_id && consumer_types::assignment_set(members[id].owned_assignment).contains(p),
    )
}

/// Whether a member owns partitions that it has to give up first.
pub open spec fn revoking(member: ConsumerMemberStateView) -> bool {
    !consumer_types::assignment_set(member.owned_assignment).subset_of(consumer_types::assignment_set(member.target_assignment))
}

/// The partitions that a member may have now: while it has partitions to give up, the others that it
/// owns; then its target, without what other members still own.
pub open spec fn allowed(group: ConsumerGroupStateView, member_id: Seq<char>) -> Set<(u128, i32)> {
    let member = group.members[member_id];
    let owned = consumer_types::assignment_set(member.owned_assignment);
    let target = consumer_types::assignment_set(member.target_assignment);
    if revoking(member) {
        owned.intersect(target)
    } else {
        target.difference(owned_by_others(group.members, member_id))
    }
}

/// The epoch of a member after its heartbeat.
pub open spec fn reached_epoch(group: ConsumerGroupStateView, member_id: Seq<char>) -> i32 {
    if revoking(group.members[member_id]) {
        group.members[member_id].member_epoch
    } else {
        group.assignment_epoch
    }
}

/// The epochs in which a member's partitions were assigned to it: of those that it may have now, and
/// of those that it still has to give up.
pub open spec fn reached_assignment_epochs(group: ConsumerGroupStateView, member_id: Seq<char>) -> Map<(u128, i32), i32> {
    let member = group.members[member_id];
    let owned = consumer_types::assignment_set(member.owned_assignment);
    let target = consumer_types::assignment_set(member.target_assignment);
    let next = allowed(group, member_id);
    let epoch = reached_epoch(group, member_id);
    Map::new(
        |p: (u128, i32)| next.contains(p) || (owned.contains(p) && !target.contains(p) && member.assignment_epochs.contains_key(p)),
        |p: (u128, i32)|
            if member.assignment_epochs.contains_key(p) {
                member.assignment_epochs[p]
            } else if epoch > 0 {
                epoch
            } else {
                0
            },
    )
}

/// A member after its heartbeat.
pub open spec fn reconciled_member(group: ConsumerGroupStateView, member_id: Seq<char>) -> ConsumerMemberStateView {
    let member = group.members[member_id];
    let next = allowed(group, member_id);
    let epoch = reached_epoch(group, member_id);
    let changed = consumer_types::assignment_set(member.current_assignment) != next;
    let previous = if member.member_epoch == epoch && changed {
        member.member_epoch
    } else {
        member.previous_member_epoch
    };
    let (current_epoch, previous_epoch) = member_epoch::moved(member.member_epoch, previous, epoch);
    ConsumerMemberStateView {
        current_assignment: consumer_types::hand_list(consumer_types::grouped(next), consumer_types::names_in(member.target_assignment)),
        assignment_epochs: reached_assignment_epochs(group, member_id),
        member_epoch: current_epoch,
        previous_member_epoch: previous_epoch,
        ..member
    }
}

/// The group and the answer after a member's heartbeat. The member is told its assignment until it
/// has converged on it.
pub open spec fn reconciled(group: ConsumerGroupStateView, member_id: Seq<char>, heartbeat_interval_ms: i32) -> (
    ConsumerGroupStateView,
    ConsumerGroupHeartbeatResultView,
) {
    let member = group.members[member_id];
    let after = reconciled_member(group, member_id);
    let next = allowed(group, member_id);
    let converged = consumer_types::assignment_set(member.owned_assignment) == next && next == consumer_types::assignment_set(
        member.target_assignment,
    );
    let changed = consumer_types::assignment_set(member.current_assignment) != next;
    (
        ConsumerGroupStateView { members: group.members.insert(member_id, after), ..group },
        ConsumerGroupHeartbeatResultView {
            member_id,
            member_epoch: after.member_epoch,
            heartbeat_interval_ms,
            assignment: if !converged || changed {
                Some(after.current_assignment)
            } else {
                None
            },
        },
    )
}

fn merge(into: &mut SortedMap<(u128, i32), ()>, from: &SortedMap<(u128, i32), ()>)
    ensures
        final(into).deep_view() == consumer_types::as_keys(old(into).deep_view().dom().union(from.deep_view().dom())),
{
    let ghost before = into.deep_view().dom();
    let keys = from.keys();
    let ghost all = keys.deep_view();
    let mut i: usize = 0;
    while i < keys.len()
        invariant
            i <= keys@.len(),
            all == keys.deep_view(),
            all.to_set() == from.deep_view().dom(),
            forall|p: (u128, i32)| #[trigger] into.deep_view().dom().contains(p) ==> before.contains(p) || from.deep_view().dom().contains(p),
            forall|p: (u128, i32)| before.contains(p) ==> #[trigger] into.deep_view().dom().contains(p),
            forall|j: int| 0 <= j < i ==> into.deep_view().dom().contains(#[trigger] all[j]),
        decreases keys@.len() - i,
    {
        proof {
            assert(all[i as int] == keys@[i as int].deep_view());
            assert(all.contains(all[i as int]));
            assert(all.to_set().contains(all[i as int]));
        }
        into.insert(keys[i], ());
        i = i + 1;
    }
    proof {
        let want = consumer_types::as_keys(before.union(from.deep_view().dom()));
        assert forall|p: (u128, i32)| #[trigger] want.dom().contains(p) == into.deep_view().dom().contains(p) by {
            if from.deep_view().dom().contains(p) {
                assert(all.to_set().contains(p));
                assert(all.contains(p));
                let j = choose|j: int| 0 <= j < all.len() && all[j] == p;
                assert(into.deep_view().dom().contains(all[j]));
            }
        }
        assert(want =~= into.deep_view());
    }
}

fn find_owned_by_others(members: &SortedMap<String, ConsumerMemberState>, member_id: &str) -> (r: SortedMap<(u128, i32), ()>)
    ensures
        r.deep_view() == consumer_types::as_keys(owned_by_others(members.deep_view(), member_id@)),
{
    let ids = members.keys();
    let ghost all = ids.deep_view();
    let ghost m = members.deep_view();
    let ghost want = owned_by_others(m, member_id@);
    let mut r: SortedMap<(u128, i32), ()> = SortedMap::new();
    let mut i: usize = 0;
    while i < ids.len()
        invariant
            i <= ids@.len(),
            all == ids.deep_view(),
            all.to_set() == m.dom(),
            m == members.deep_view(),
            want == owned_by_others(m, member_id@),
            forall|p: (u128, i32)| #[trigger] r.deep_view().dom().contains(p) ==> want.contains(p),
            forall|j: int, p: (u128, i32)|
                0 <= j < i && all[j] != member_id@ && #[trigger] consumer_types::assignment_set(m[all[j]].owned_assignment).contains(p)
                    ==> r.deep_view().dom().contains(p),
        decreases ids@.len() - i,
    {
        proof {
            assert(all[i as int] == ids@[i as int].deep_view());
            assert(all.contains(all[i as int]));
            assert(m.dom().contains(all[i as int]));
            assert(m.contains_key(all[i as int]));
        }
        if !same_text(ids[i].as_str(), member_id) {
            if let Some(member) = members.get(&ids[i]) {
                let owned = assigned_partitions(&member.owned_assignment);
                assert(owned.deep_view().dom() =~= consumer_types::assignment_set(member.owned_assignment.deep_view()));
                merge(&mut r, &owned);
            }
        }
        i = i + 1;
    }
    proof {
        assert forall|p: (u128, i32)| #[trigger] want.contains(p) implies r.deep_view().dom().contains(p) by {
            let id = choose|id: Seq<char>| #[trigger] m.contains_key(id) && id != member_id@
                && consumer_types::assignment_set(m[id].owned_assignment).contains(p);
            assert(all.to_set().contains(id));
            assert(all.contains(id));
            let j = choose|j: int| 0 <= j < all.len() && all[j] == id;
            assert(consumer_types::assignment_set(m[all[j]].owned_assignment).contains(p));
        }
        assert(r.deep_view() =~= consumer_types::as_keys(want));
    }
    r
}

fn next_assignment_epochs(
    next: &SortedMap<(u128, i32), ()>,
    owned: &SortedMap<(u128, i32), ()>,
    target: &SortedMap<(u128, i32), ()>,
    before: &SortedMap<(u128, i32), i32>,
    epoch: i32,
) -> (r: SortedMap<(u128, i32), i32>)
    ensures
        r.deep_view() == Map::new(
            |p: (u128, i32)|
                next.deep_view().contains_key(p) || (owned.deep_view().contains_key(p) && !target.deep_view().contains_key(p)
                    && before.deep_view().contains_key(p)),
            |p: (u128, i32)|
                if before.deep_view().contains_key(p) {
                    before.deep_view()[p]
                } else if epoch > 0 {
                    epoch
                } else {
                    0
                },
        ),
{
    let floor: i32 = if epoch > 0 {
        epoch
    } else {
        0
    };
    let ghost b = before.deep_view();
    let mut r = before.duplicate();
    let ghost keep = |p: (u128, i32), e: i32| next.deep_view().contains_key(p) || (owned.deep_view().contains_key(p)
        && !target.deep_view().contains_key(p));
    let keeps = |p: &(u128, i32), e: &i32| -> (k: bool)
        ensures k == keep(p.deep_view(), e.deep_view())
    {
        next.contains_key(p) || (owned.contains_key(p) && !target.contains_key(p))
    };
    r.retain(keeps, Ghost(keep));
    let ghost kept = r.deep_view();
    let keys = next.keys();
    let ghost all = keys.deep_view();
    let mut i: usize = 0;
    while i < keys.len()
        invariant
            i <= keys@.len(),
            all == keys.deep_view(),
            all.to_set() == next.deep_view().dom(),
            b == before.deep_view(),
            kept == sorted_map::filtered(b, keep),
            forall|p: (u128, i32), e: i32| #[trigger] keep(p, e) == (next.deep_view().contains_key(p)
                || (owned.deep_view().contains_key(p) && !target.deep_view().contains_key(p))),
            floor == if epoch > 0 { epoch } else { 0 },
            forall|p: (u128, i32)| #[trigger] r.deep_view().contains_key(p) ==> (kept.contains_key(p) && r.deep_view()[p] == b[p])
                || (next.deep_view().contains_key(p) && !b.contains_key(p) && r.deep_view()[p] == floor),
            forall|p: (u128, i32)| kept.contains_key(p) ==> #[trigger] r.deep_view().contains_key(p),
            forall|j: int| 0 <= j < i ==> r.deep_view().contains_key(#[trigger] all[j]),
        decreases keys@.len() - i,
    {
        proof {
            assert(all[i as int] == keys@[i as int].deep_view());
            assert(all.contains(all[i as int]));
            assert(all.to_set().contains(all[i as int]));
            let p = all[i as int];
            if b.contains_key(p) {
                assert(keep(p, b[p]));
                assert(kept.contains_key(p));
            }
        }
        if !before.contains_key(&keys[i]) {
            r.insert(keys[i], floor);
        }
        i = i + 1;
    }
    proof {
        let want = Map::new(
            |p: (u128, i32)| next.deep_view().contains_key(p) || (owned.deep_view().contains_key(p) && !target.deep_view().contains_key(p)
                && b.contains_key(p)),
            |p: (u128, i32)| if b.contains_key(p) { b[p] } else if epoch > 0 { epoch } else { 0 },
        );
        assert forall|p: (u128, i32)| #[trigger] want.dom().contains(p) == r.deep_view().dom().contains(p) by {
            if next.deep_view().contains_key(p) {
                assert(all.to_set().contains(p));
                assert(all.contains(p));
                let j = choose|j: int| 0 <= j < all.len() && all[j] == p;
                assert(r.deep_view().contains_key(all[j]));
            }
            if b.contains_key(p) {
                assert(keep(p, b[p]) == kept.contains_key(p));
            }
            if r.deep_view().contains_key(p) && kept.contains_key(p) {
                assert(keep(p, b[p]));
            }
        }
        assert(want.dom() =~= r.deep_view().dom());
        assert(want =~= r.deep_view());
    }
    r
}

/// Moves a member towards its target assignment as far as the other members allow.
#[verifier::rlimit(40)]
pub fn reconcile_member(group: &mut ConsumerGroupState, member_id: &str, heartbeat_interval_ms: i32) -> (r: ConsumerGroupHeartbeatResult)
    requires
        old(group).deep_view().members.contains_key(member_id@),
    ensures
        (final(group).deep_view(), r.deep_view()) == reconciled(old(group).deep_view(), member_id@, heartbeat_interval_ms),
{
    let ghost g = group.deep_view();
    let others = find_owned_by_others(&group.members, member_id);
    let key = member_id.to_owned();
    let mut member = group.members.remove(&key).unwrap();
    let ghost m = member.deep_view();
    let owned = assigned_partitions(&member.owned_assignment);
    let target = assigned_partitions(&member.target_assignment);
    let current = assigned_partitions(&member.current_assignment);
    proof {
        assert(owned.deep_view().dom() =~= consumer_types::assignment_set(m.owned_assignment));
        assert(target.deep_view().dom() =~= consumer_types::assignment_set(m.target_assignment));
        assert(current.deep_view().dom() =~= consumer_types::assignment_set(m.current_assignment));
        assert(others.deep_view().dom() =~= owned_by_others(g.members, member_id@));
    }
    let gives_up = !is_subset(&owned, &target);
    let mut next = target.duplicate();
    if gives_up {
        let ghost keep = |p: (u128, i32), nothing: ()| owned.deep_view().contains_key(p);
        let keeps = |p: &(u128, i32), nothing: &()| -> (b: bool)
            ensures b == keep(p.deep_view(), nothing.deep_view())
        {
            owned.contains_key(p)
        };
        next.retain(keeps, Ghost(keep));
    } else {
        let ghost keep = |p: (u128, i32), nothing: ()| !others.deep_view().contains_key(p);
        let keeps = |p: &(u128, i32), nothing: &()| -> (b: bool)
            ensures b == keep(p.deep_view(), nothing.deep_view())
        {
            !others.contains_key(p)
        };
        next.retain(keeps, Ghost(keep));
    }
    let ghost step = allowed(g, member_id@);
    assert(next.deep_view().dom() =~= step);
    let epoch: i32 = if gives_up {
        member.member_epoch
    } else {
        group.assignment_epoch
    };
    let names = assignment_names(&member.target_assignment);
    let hand = group_by_topic(&next);
    member.current_assignment = list_hand(&hand, &names);
    let epochs = next_assignment_epochs(&next, &owned, &target, &member.assignment_epochs, epoch);
    proof {
        assert(epochs.deep_view() =~= reached_assignment_epochs(g, member_id@));
    }
    member.assignment_epochs = epochs;
    let changed = !is_same_set(&current, &next);
    if member.member_epoch == epoch && changed {
        member.previous_member_epoch = member.member_epoch;
    }
    let mut current_epoch: i32 = member.member_epoch;
    let mut previous_epoch: i32 = member.previous_member_epoch;
    member_epoch::update(&mut current_epoch, &mut previous_epoch, epoch);
    member.member_epoch = current_epoch;
    member.previous_member_epoch = previous_epoch;
    let converged = is_same_set(&owned, &next) && is_same_set(&next, &target);
    let assignment = if !converged || changed {
        Some(member.current_assignment.duplicate())
    } else {
        None
    };
    let reached: i32 = member.member_epoch;
    let ghost after = member.deep_view();
    assert(after == reconciled_member(g, member_id@));
    group.members.insert(key, member);
    assert(g.members.remove(member_id@).insert(member_id@, after) =~= g.members.insert(member_id@, after));
    ConsumerGroupHeartbeatResult { member_id: member_id.to_owned(), member_epoch: reached, heartbeat_interval_ms, assignment }
}

} // verus!
