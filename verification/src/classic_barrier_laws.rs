//! What joining a classic group through its barrier brings about.

use crate::classic_barrier;
use crate::classic_groups;
use crate::classic_groups::MemoryGroupView;
use crate::classic_join;
use crate::classic_join::{ClassicGroupsView, JoinRequestView};
use crate::classic_join_laws;
use crate::classic_join_laws::{asked_group, has_a_seat, instance_is_held, is_in_order, is_let_in};
use crate::classic_laws;
use crate::groups;
use crate::groups::GroupMemberView;
use vstd::prelude::*;

verus! {

/// Whether an instant leaves every member the time that it asked for, from some other one on, and no
/// more than that.
pub open spec fn leaves_time(members: Map<Seq<char>, GroupMemberView>, start: int, deadline: int) -> bool {
    &&& forall|y: Seq<char>| #[trigger] members.contains_key(y) ==> start + members[y].rebalance_timeout_ms * 1_000_000 <= deadline
    &&& exists|y: Seq<char>| #[trigger] members.contains_key(y) && start + members[y].rebalance_timeout_ms * 1_000_000 == deadline
}

/// Whether a member sends what it sent before.
pub open spec fn speaks_as_before(before: GroupMemberView, request: JoinRequestView) -> bool {
    before.protocols.len() == request.protocols.len() && forall|i: int|
        0 <= i < request.protocols.len() ==> before.protocols[i].name == (#[trigger] request.protocols[i]).0 && before.protocols[i].metadata
            == request.protocols[i].1
}

/// Whether a request comes from a member, under its id.
pub open spec fn is_back(g: MemoryGroupView, request: JoinRequestView) -> bool {
    request.requested_member_id.len() > 0 && g.members.contains_key(request.requested_member_id)
}

proof fn some_timeout_is_longest(members: Map<Seq<char>, GroupMemberView>, id: Seq<char>)
    requires
        members.dom().finite(),
        members.contains_key(id),
    ensures
        classic_barrier::is_longest_timeout(members, classic_barrier::longest_timeout(members)),
    decreases members.dom().len(),
{
    let rest = members.remove(id);
    assert(rest.dom() =~= members.dom().remove(id));
    if exists|y: Seq<char>| #[trigger] rest.contains_key(y) {
        let y = choose|y: Seq<char>| #[trigger] rest.contains_key(y);
        some_timeout_is_longest(rest, y);
        let t = classic_barrier::longest_timeout(rest);
        let best = if members[id].rebalance_timeout_ms > t {
            members[id].rebalance_timeout_ms
        } else {
            t
        };
        assert(classic_barrier::is_longest_timeout(members, best)) by {
            if best == t {
                let z = choose|z: Seq<char>| #[trigger] rest.contains_key(z) && rest[z].rebalance_timeout_ms == t;
                assert(members.contains_key(z) && members[z].rebalance_timeout_ms == t);
            }
            assert forall|z: Seq<char>| #[trigger] members.contains_key(z) implies members[z].rebalance_timeout_ms <= best by {
                if z != id {
                    assert(rest.contains_key(z));
                }
            }
        }
    } else {
        assert(classic_barrier::is_longest_timeout(members, members[id].rebalance_timeout_ms)) by {
            assert forall|z: Seq<char>| #[trigger] members.contains_key(z) implies members[z].rebalance_timeout_ms
                <= members[id].rebalance_timeout_ms by {
                if z != id {
                    assert(rest.contains_key(z));
                }
            }
        }
    }
}

proof fn longest_timeout_leaves_time(members: Map<Seq<char>, GroupMemberView>, id: Seq<char>, start: int)
    requires
        members.dom().finite(),
        members.contains_key(id),
    ensures
        leaves_time(members, start, start + classic_barrier::longest_timeout(members) * 1_000_000),
{
    some_timeout_is_longest(members, id);
    let t = classic_barrier::longest_timeout(members);
    let y = choose|y: Seq<char>| #[trigger] members.contains_key(y) && members[y].rebalance_timeout_ms == t;
    assert(start + members[y].rebalance_timeout_ms * 1_000_000 == start + t * 1_000_000);
}

/// Whether a request to join is made at a time, and of a group, for which joining is in question.
pub open spec fn is_calm(s: ClassicGroupsView, request: JoinRequestView, now: int, fresh: Seq<char>, fresh_rebalance: u128) -> bool {
    let g = asked_group(s, request);
    &&& i128::MIN + 3_000_000_000_000_000 <= now < i128::MAX - 3_000_000_000_000_000
    &&& is_in_order(g, now)
    &&& !g.members.contains_key(request.client_id + "-"@ + fresh)
    &&& forall|y: Seq<char>| #[trigger] g.members.contains_key(y) ==> g.members[y].joined_rebalance_id != Some(fresh_rebalance)
}

proof fn seats_are_taken(s: ClassicGroupsView, request: JoinRequestView, now: int, fresh: Seq<char>, fresh_rebalance: u128) -> (r: (
    MemoryGroupView,
    Option<Seq<char>>,
))
    requires
        is_calm(s, request, now, fresh, fresh_rebalance),
        classic_barrier::begun(s, request, now, fresh, fresh_rebalance).1 is Ok,
    ensures
        ({
            let (after, answer) = classic_barrier::begun(s, request, now, fresh, fresh_rebalance);
            let g = asked_group(s, request);
            let b = r.0;
            let id = answer->Ok_0.member_id;
            let outcome = classic_barrier::beginning(b, request, id, r.1, is_back(g, request), false, now, fresh_rebalance);
            &&& classic_barrier::complete(request)
            &&& b == (MemoryGroupView { empty_since: b.empty_since, ..g })
            &&& classic_laws::sound(b)
            &&& after.groups.contains_key(request.group_id)
            &&& after.groups[request.group_id] == outcome.0
            &&& answer->Ok_0 == outcome.1
            &&& is_let_in(s, request, now, fresh, id)
            &&& is_back(g, request) ==> id == request.requested_member_id && r.1 is None
            &&& !is_back(g, request) ==> !g.members.contains_key(id) && (r.1 is Some <==> instance_is_held(g, request))
            &&& r.1 is Some ==> g.members.contains_key(r.1->0) && g.members[r.1->0].group_instance_id == request.group_instance_id
            &&& !is_back(g, request) && r.1 is None ==> g.members.dom().len() < request.max_size
        }),
{
    let g = asked_group(s, request);
    let gid = request.group_id;
    classic_join_laws::nobody_expires(g, now);
    classic_laws::new_group_is_sound();
    let c = classic_barrier::swept(s, gid, now);
    let group = c.groups.get(gid);
    let b = if group is Some {
        group->0
    } else {
        classic_groups::new_group()
    };
    let (id, replaced) = classic_join::resolved(group, c.pending_members, request, fresh)->Ok_0;
    if request.group_instance_id is Some {
        classic_laws::owner_holds_instance(g.members, request.group_instance_id->0);
    }
    assert(classic_laws::sound(b)) by {
        let name = choose|name: Seq<char>| classic_laws::all_offer(g.members, name);
        assert(classic_laws::all_offer(b.members, name));
    }
    if !s.groups.contains_key(gid) {
        assert(g.members.dom() =~= Set::empty());
    }
    (b, replaced)
}

proof fn seats_are_kept(b: MemoryGroupView, request: JoinRequestView, id: Seq<char>, replaced: Option<Seq<char>>, now: int, joined: Option<u128>)
    requires
        classic_laws::sound(b),
        i128::MIN + 3_000_000_000_000_000 <= now < i128::MAX - 3_000_000_000_000_000,
        request.rebalance_timeout_ms > 0,
    ensures
        ({
            let name = classic_join::agreed(classic_join::others(b.members, id, replaced), groups::offered(request.protocols))->0;
            let member = classic_join::newcomer(request, id, name, request.rebalance_timeout_ms, now, joined);
            let full = classic_join::seated(b, request.protocol_type, member, replaced, name);
            let t = classic_barrier::longest_timeout(full.members);
            &&& full.members.dom().finite()
            &&& full.members.contains_key(id)
            &&& full.members[id].joined_rebalance_id == joined
            &&& full.members[id].rebalance_timeout_ms == request.rebalance_timeout_ms
            &&& forall|y: Seq<char>|
                #[trigger] full.members.contains_key(y) <==> y == id || (b.members.contains_key(y) && replaced != Some(y))
            &&& forall|y: Seq<char>|
                #[trigger] full.members.contains_key(y) && y != id ==> full.members[y] == groups::with_protocol(b.members[y], name)
            &&& full.members[id] == groups::with_protocol(member, name)
            &&& leaves_time(full.members, now, now + t * 1_000_000)
            &&& t >= request.rebalance_timeout_ms
        }),
{
    let rest = classic_join::others(b.members, id, replaced);
    let name = classic_join::agreed(rest, groups::offered(request.protocols))->0;
    let member = classic_join::newcomer(request, id, name, request.rebalance_timeout_ms, now, joined);
    let full = classic_join::seated(b, request.protocol_type, member, replaced, name);
    assert(rest.dom().subset_of(b.members.dom()));
    vstd::set_lib::lemma_len_subset(rest.dom(), b.members.dom());
    assert(full.members.dom() =~= rest.dom().insert(id));
    assert(full.members.contains_key(id));
    longest_timeout_leaves_time(full.members, id, now);
    some_timeout_is_longest(full.members, id);
}

/// A newcomer gets a seat only where there is one left. Where others are there already, it begins a
/// rebalance: the group stays in its generation, gives up its assignments and waits for all the others,
/// for as long as the most patient of them allows.
pub proof fn newcomers_begin_rebalances(
    s: ClassicGroupsView,
    request: JoinRequestView,
    now: int,
    fresh: Seq<char>,
    fresh_rebalance: u128,
    other: Seq<char>,
    x: Seq<char>,
)
    requires
        is_calm(s, request, now, fresh, fresh_rebalance),
        !asked_group(s, request).rebalance_pending,
        asked_group(s, request).members.contains_key(other),
        !is_back(asked_group(s, request), request),
        !instance_is_held(asked_group(s, request), request),
        classic_barrier::begun(s, request, now, fresh, fresh_rebalance).1 is Ok,
    ensures
        ({
            let (after, answer) = classic_barrier::begun(s, request, now, fresh, fresh_rebalance);
            let g = asked_group(s, request);
            let h = after.groups[request.group_id];
            let told = answer->Ok_0;
            let id = told.member_id;
            &&& is_let_in(s, request, now, fresh, id)
            &&& has_a_seat(g, h, request, now, told, x)
            &&& h.members[id].rebalance_timeout_ms == request.rebalance_timeout_ms
            &&& h.members[id].joined_rebalance_id == Some(fresh_rebalance)
            &&& g.members.contains_key(x) ==> h.members.contains_key(x)
            &&& g.members.dom().len() < request.max_size
            &&& h.rebalance_pending
            &&& h.rebalance_id == Some(fresh_rebalance)
            &&& told.pending_rebalance == Some(fresh_rebalance)
            &&& h.generation_id == g.generation_id
            &&& !h.assignments.contains_key(x)
            &&& h.rebalance_deadline is Some
            &&& leaves_time(h.members, now, h.rebalance_deadline->0)
            &&& h.initial_rebalance_deadline is None
        }),
{
    let g = asked_group(s, request);
    let (b, replaced) = seats_are_taken(s, request, now, fresh, fresh_rebalance);
    let id = classic_barrier::begun(s, request, now, fresh, fresh_rebalance).1->Ok_0.member_id;
    seats_are_kept(b, request, id, replaced, now, Some(fresh_rebalance));
    let name = classic_join::agreed(classic_join::others(b.members, id, replaced), groups::offered(request.protocols))->0;
    let member = classic_join::newcomer(request, id, name, request.rebalance_timeout_ms, now, Some(fresh_rebalance));
    let full = classic_join::seated(b, request.protocol_type, member, replaced, name);
    let waiting = classic_barrier::gathering(full, fresh_rebalance, now, false, request.initial_rebalance_delay_ms);
    assert(b.members.dom().contains(other));
    assert(b.members.dom().len() > 0) by {
        if b.members.dom().len() == 0 {
            b.members.dom().lemma_len0_is_empty();
        }
    }
    assert(full.members.contains_key(other) && other != id);
    assert(!classic_barrier::has_joined(waiting, waiting.members[other]));
    assert(!classic_barrier::timed_out(waiting, now));
    let h = classic_barrier::begun(s, request, now, fresh, fresh_rebalance).0.groups[request.group_id];
    assert(h == waiting);
}

/// One that comes first to a group waits for others for the initial delay, though not for longer than it
/// asked for; without such a delay the first generation begins at once.
pub proof fn the_first_wait_for_others(s: ClassicGroupsView, request: JoinRequestView, now: int, fresh: Seq<char>, fresh_rebalance: u128, x: Seq<char>)
    requires
        is_calm(s, request, now, fresh, fresh_rebalance),
        !asked_group(s, request).rebalance_pending,
        forall|y: Seq<char>| !(#[trigger] asked_group(s, request).members.contains_key(y)),
        classic_barrier::begun(s, request, now, fresh, fresh_rebalance).1 is Ok,
    ensures
        ({
            let (after, answer) = classic_barrier::begun(s, request, now, fresh, fresh_rebalance);
            let g = asked_group(s, request);
            let h = after.groups[request.group_id];
            let told = answer->Ok_0;
            let delay = if request.initial_rebalance_delay_ms < request.rebalance_timeout_ms {
                request.initial_rebalance_delay_ms
            } else {
                request.rebalance_timeout_ms
            };
            &&& has_a_seat(g, h, request, now, told, x)
            &&& h.members.contains_key(x) ==> x == told.member_id
            &&& h.members[told.member_id].joined_rebalance_id == Some(fresh_rebalance)
            &&& h.rebalance_id == Some(fresh_rebalance)
            &&& request.initial_rebalance_delay_ms == 0 ==> !h.rebalance_pending && told.pending_rebalance is None && h.generation_id
                == g.generation_id + 1 && h.leader == told.member_id
            &&& request.initial_rebalance_delay_ms > 0 ==> h.rebalance_pending && told.pending_rebalance == Some(fresh_rebalance)
                && h.generation_id == g.generation_id && h.initial_rebalance_deadline == Some(now + delay * 1_000_000)
        }),
{
    let g = asked_group(s, request);
    let (b, replaced) = seats_are_taken(s, request, now, fresh, fresh_rebalance);
    let id = classic_barrier::begun(s, request, now, fresh, fresh_rebalance).1->Ok_0.member_id;
    seats_are_kept(b, request, id, replaced, now, Some(fresh_rebalance));
    let name = classic_join::agreed(classic_join::others(b.members, id, replaced), groups::offered(request.protocols))->0;
    let member = classic_join::newcomer(request, id, name, request.rebalance_timeout_ms, now, Some(fresh_rebalance));
    let full = classic_join::seated(b, request.protocol_type, member, replaced, name);
    let waiting = classic_barrier::gathering(full, fresh_rebalance, now, true, request.initial_rebalance_delay_ms);
    assert(!is_back(g, request));
    assert(!instance_is_held(g, request));
    assert(b.members.dom() =~= Set::empty());
    let t = classic_barrier::longest_timeout(full.members);
    some_timeout_is_longest(full.members, id);
    let y = choose|y: Seq<char>| #[trigger] full.members.contains_key(y) && full.members[y].rebalance_timeout_ms == t;
    assert(y == id);
    assert(t == request.rebalance_timeout_ms);
    assert forall|z: Seq<char>| #[trigger] waiting.members.contains_key(z) implies classic_barrier::has_joined(waiting, waiting.members[z]) by {
        assert(full.members.contains_key(z));
    }
    assert(classic_barrier::all_joined(waiting));
    assert(!classic_barrier::timed_out(waiting, now));
    let h = classic_barrier::begun(s, request, now, fresh, fresh_rebalance).0.groups[request.group_id];
    assert(h == classic_barrier::progressed(waiting, now));
    if request.initial_rebalance_delay_ms == 0 {
        classic_join_laws::leaders_have_joined(waiting, now, id);
        assert(full.members.contains_key(h.leader));
    }
}

/// A member that comes back as it was, to a group where everybody has an assignment, changes nothing,
/// unless it leads the group; the leader, and one that speaks differently, begin a rebalance.
pub proof fn members_that_come_back_change_nothing(
    s: ClassicGroupsView,
    request: JoinRequestView,
    now: int,
    fresh: Seq<char>,
    fresh_rebalance: u128,
    other: Seq<char>,
    x: Seq<char>,
)
    requires
        is_calm(s, request, now, fresh, fresh_rebalance),
        !asked_group(s, request).rebalance_pending,
        is_back(asked_group(s, request), request),
        forall|y: Seq<char>| #[trigger] asked_group(s, request).members.contains_key(y) <==> asked_group(s, request).assignments.contains_key(y),
        asked_group(s, request).leader.len() > 0,
        asked_group(s, request).members.contains_key(other),
        other != request.requested_member_id,
        classic_barrier::begun(s, request, now, fresh, fresh_rebalance).1 is Ok,
    ensures
        ({
            let (after, answer) = classic_barrier::begun(s, request, now, fresh, fresh_rebalance);
            let g = asked_group(s, request);
            let h = after.groups[request.group_id];
            let told = answer->Ok_0;
            let id = request.requested_member_id;
            &&& told.member_id == id
            &&& has_a_seat(g, h, request, now, told, x)
            &&& g.members.contains_key(x) <==> h.members.contains_key(x)
            &&& speaks_as_before(g.members[id], request) && g.leader != id && h.protocol_name == g.protocol_name ==> !h.rebalance_pending
                && h.generation_id == g.generation_id && h.assignments == g.assignments && h.leader == g.leader && told.pending_rebalance is None
            &&& !speaks_as_before(g.members[id], request) || g.leader == id ==> h.rebalance_pending && h.rebalance_id == Some(fresh_rebalance)
                && told.pending_rebalance == Some(fresh_rebalance) && h.generation_id == g.generation_id && !h.assignments.contains_key(x)
                && h.members[id].joined_rebalance_id == Some(fresh_rebalance) && h.rebalance_deadline is Some && leaves_time(
                h.members,
                now,
                h.rebalance_deadline->0,
            )
        }),
{
    let g = asked_group(s, request);
    let (b, replaced) = seats_are_taken(s, request, now, fresh, fresh_rebalance);
    let id = request.requested_member_id;
    let before = g.members[id];
    let incoming = groups::offered(request.protocols);
    assert(g.members.dom() =~= g.assignments.dom());
    assert(b.members.dom().contains(id));
    assert(b.members.dom().len() > 0) by {
        if b.members.dom().len() == 0 {
            b.members.dom().lemma_len0_is_empty();
        }
    }
    if speaks_as_before(before, request) {
        assert forall|i: int| 0 <= i < incoming.len() implies incoming[i] == #[trigger] before.protocols[i] by {
            assert(before.protocols[i].name == request.protocols[i].0);
        }
        assert(before.protocols =~= incoming);
    }
    if before.protocols == incoming {
        assert forall|i: int| 0 <= i < request.protocols.len() implies before.protocols[i].name == (#[trigger] request.protocols[i]).0
            && before.protocols[i].metadata == request.protocols[i].1 by {
            assert(incoming[i] == before.protocols[i]);
        }
        assert(speaks_as_before(before, request));
    }
    seats_are_kept(b, request, id, replaced, now, Some(fresh_rebalance));
    seats_are_kept(b, request, id, replaced, now, before.joined_rebalance_id);
    let name = classic_join::agreed(classic_join::others(b.members, id, replaced), incoming)->0;
    let member = classic_join::newcomer(request, id, name, request.rebalance_timeout_ms, now, Some(fresh_rebalance));
    let full = classic_join::seated(b, request.protocol_type, member, replaced, name);
    let waiting = classic_barrier::gathering(full, fresh_rebalance, now, false, request.initial_rebalance_delay_ms);
    assert(full.members.contains_key(other));
    assert(!classic_barrier::has_joined(waiting, waiting.members[other]));
    assert(!classic_barrier::timed_out(waiting, now));
    assert(classic_barrier::progressed(waiting, now) == waiting);
}

/// While a rebalance is under way, joining is to join it. Once the last member has come, and no initial
/// delay is left, the next generation begins; while somebody is missing and there is time, it does not.
/// Whoever joins may put the deadline off, never bring it forward.
pub proof fn rebalances_are_joined(
    s: ClassicGroupsView,
    request: JoinRequestView,
    now: int,
    fresh: Seq<char>,
    fresh_rebalance: u128,
    other: Seq<char>,
    x: Seq<char>,
)
    requires
        is_calm(s, request, now, fresh, fresh_rebalance),
        asked_group(s, request).rebalance_pending,
        asked_group(s, request).rebalance_started_at is Some,
        i128::MIN + 3_000_000_000_000_000 <= asked_group(s, request).rebalance_started_at->0 <= now,
        asked_group(s, request).rebalance_deadline is Some,
        asked_group(s, request).rebalance_deadline->0 > now,
        classic_barrier::begun(s, request, now, fresh, fresh_rebalance).1 is Ok,
    ensures
        ({
            let (after, answer) = classic_barrier::begun(s, request, now, fresh, fresh_rebalance);
            let g = asked_group(s, request);
            let h = after.groups[request.group_id];
            let told = answer->Ok_0;
            let id = told.member_id;
            let stays = g.members.contains_key(other) && other != id && !(request.group_instance_id is Some && g.members[other].group_instance_id
                == request.group_instance_id);
            &&& is_let_in(s, request, now, fresh, id)
            &&& has_a_seat(g, h, request, now, told, x)
            &&& h.members[id].joined_rebalance_id == g.rebalance_id
            &&& h.rebalance_id == g.rebalance_id
            &&& stays ==> h.members.contains_key(other)
            &&& stays && g.members[other].joined_rebalance_id != g.rebalance_id ==> h.rebalance_pending && h.generation_id == g.generation_id
                && told.pending_rebalance == g.rebalance_id
            &&& (forall|y: Seq<char>| #[trigger] g.members.contains_key(y) && y != id ==> g.members[y].joined_rebalance_id == g.rebalance_id)
                && g.initial_rebalance_deadline is None ==> !h.rebalance_pending && h.generation_id == g.generation_id + 1
                && told.pending_rebalance is None
            &&& h.rebalance_pending ==> h.rebalance_deadline is Some && h.rebalance_deadline->0 >= g.rebalance_deadline->0
                && h.rebalance_deadline->0 >= g.rebalance_started_at->0 + request.rebalance_timeout_ms * 1_000_000
            &&& h.rebalance_pending && g.initial_rebalance_deadline is Some ==> h.initial_rebalance_deadline is Some
                && h.initial_rebalance_deadline->0 <= now + request.initial_rebalance_delay_ms * 1_000_000 && h.initial_rebalance_deadline->0
                <= h.rebalance_deadline->0
        }),
{
    let g = asked_group(s, request);
    let (b, replaced) = seats_are_taken(s, request, now, fresh, fresh_rebalance);
    let id = classic_barrier::begun(s, request, now, fresh, fresh_rebalance).1->Ok_0.member_id;
    seats_are_kept(b, request, id, replaced, now, g.rebalance_id);
    let incoming = groups::offered(request.protocols);
    let name = classic_join::agreed(classic_join::others(b.members, id, replaced), incoming)->0;
    let member = classic_join::newcomer(request, id, name, request.rebalance_timeout_ms, now, g.rebalance_id);
    let full = classic_join::seated(b, request.protocol_type, member, replaced, name);
    let waiting = if full.initial_rebalance_deadline is Some {
        classic_barrier::with_later_start(classic_barrier::with_later_deadline(full), now, request.initial_rebalance_delay_ms)
    } else {
        classic_barrier::with_later_deadline(full)
    };
    let h = classic_barrier::begun(s, request, now, fresh, fresh_rebalance).0.groups[request.group_id];
    assert(h == classic_barrier::progressed(waiting, now));
    assert(!classic_barrier::timed_out(waiting, now));
    if g.members.contains_key(other) && other != id && !(request.group_instance_id is Some && g.members[other].group_instance_id
        == request.group_instance_id) {
        assert(full.members.contains_key(other));
        if g.members[other].joined_rebalance_id != g.rebalance_id {
            assert(!classic_barrier::has_joined(waiting, waiting.members[other]));
        }
    }
    if forall|y: Seq<char>| #[trigger] g.members.contains_key(y) && y != id ==> g.members[y].joined_rebalance_id == g.rebalance_id {
        assert forall|z: Seq<char>| #[trigger] waiting.members.contains_key(z) implies classic_barrier::has_joined(waiting, waiting.members[z]) by {
            assert(full.members.contains_key(z));
            if z != id {
                assert(g.members.contains_key(z));
            }
        }
        assert(classic_barrier::all_joined(waiting));
    }
}

} // verus!
