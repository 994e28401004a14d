//! What the rules on rows of a database bring about.

use crate::classic_barrier;
use crate::classic_groups;
use crate::classic_groups::MemoryGroupView;
use crate::classic_join;
use crate::classic_join::{ClassicGroupsView, JoinRequestView};
use crate::classic_join_laws;
use crate::classic_laws;
use crate::compaction::{CompactionSourceSpanView, CompactionTransactionState};
use crate::error::ControlErrorView;
use crate::groups;
use crate::groups::GroupMemberView;
use crate::log_types::{ObjectRefView, OffsetCommitView, StoredSpanView};
use crate::partition::PartitionKeyView;
use crate::row_groups;
use crate::row_groups::{RowCourseView, RowGroupView, RowJoinView, RowBeginView};
use crate::row_rules;
use crate::row_rules::{ObjectRow, SpanRowView};
use crate::sorted_map;
use vstd::prelude::*;

verus! {

/// Whether a reader may see a row: any, or one whose transaction, if it has one, was committed.
pub open spec fn may_be_read(row: SpanRowView, committed_only: bool) -> bool {
    !committed_only || row.state == "visible"@ || row.state == "committed"@
}

/// The spans of those of the first `n` rows that a reader may see.
pub open spec fn readable(rows: Seq<SpanRowView>, n: int, committed_only: bool) -> Seq<StoredSpanView>
    decreases n,
{
    if n <= 0 {
        Seq::empty()
    } else if may_be_read(rows[n - 1], committed_only) {
        readable(rows, n - 1, committed_only).push(rows[n - 1].span)
    } else {
        readable(rows, n - 1, committed_only)
    }
}

/// The bytes of some spans; one that ends before it starts has none.
pub open spec fn heaviness(spans: Seq<StoredSpanView>) -> int
    decreases spans.len(),
{
    if spans.len() == 0 {
        0
    } else {
        heaviness(spans.drop_last()) + if spans.last().byte_end > spans.last().byte_start {
            spans.last().byte_end - spans.last().byte_start
        } else {
            0
        }
    }
}

/// Whether a fetch of rows ends rightly behind the first `n`: all are taken that a reader may see, and
/// there are no more, or the next is where open transactions begin, or it would be too much.
pub open spec fn ends_behind(rows: Seq<SpanRowView>, n: int, taken: Seq<StoredSpanView>, max_bytes: int, committed_before: Option<i64>) -> bool {
    &&& 0 <= n <= rows.len()
    &&& taken == readable(rows, n, committed_before is Some)
    &&& committed_before is Some ==> forall|i: int| 0 <= i < n ==> (#[trigger] rows[i]).span.base_offset < committed_before->0
    &&& taken.len() <= 1 || heaviness(taken) <= max_bytes
    &&& n < rows.len() ==> (committed_before is Some && rows[n].span.base_offset >= committed_before->0) || (taken.len() > 0 && heaviness(
        taken.push(rows[n].span),
    ) > max_bytes)
}

proof fn bytes_are_counted(spans: Seq<StoredSpanView>)
    ensures
        row_rules::row_bytes(spans) == heaviness(spans),
    decreases spans.len(),
{
    if spans.len() > 0 {
        bytes_are_counted(spans.drop_last());
    }
}

proof fn fetches_end_rightly(rows: Seq<SpanRowView>, i: int, taken: Seq<StoredSpanView>, max_bytes: int, committed_before: Option<i64>) -> (n: int)
    requires
        0 <= i <= rows.len(),
        taken == readable(rows, i, committed_before is Some),
        committed_before is Some ==> forall|k: int| 0 <= k < i ==> (#[trigger] rows[k]).span.base_offset < committed_before->0,
        taken.len() <= 1 || heaviness(taken) <= max_bytes,
    ensures
        ends_behind(rows, n, row_rules::rows_fetched(rows, i, taken, max_bytes, committed_before), max_bytes, committed_before),
    decreases rows.len() - i,
{
    bytes_are_counted(taken);
    if i >= rows.len() {
        i
    } else {
        let more = taken.push(rows[i].span);
        assert(more.drop_last() =~= taken);
        assert(heaviness(more) == heaviness(taken) + row_rules::span_bytes(rows[i].span));
        if committed_before is Some && rows[i].span.base_offset >= committed_before->0 {
            i
        } else if committed_before is Some && !row_rules::shows(rows[i]) {
            fetches_end_rightly(rows, i + 1, taken, max_bytes, committed_before)
        } else if taken.len() > 0 && row_rules::row_bytes(taken) + row_rules::span_bytes(rows[i].span) > max_bytes {
            i
        } else {
            fetches_end_rightly(rows, i + 1, more, max_bytes, committed_before)
        }
    }
}

/// A fetch of rows leaves nothing out: it takes what a reader may see, in order, from the first row on,
/// up to where open transactions begin or to the first span that would be too much. One span is always
/// taken, if there is any.
pub proof fn row_fetches_leave_no_gaps(rows: Seq<SpanRowView>, max_bytes: int, committed_before: Option<i64>)
    ensures
        exists|n: int|
            #[trigger] ends_behind(
                rows,
                n,
                row_rules::rows_fetched(rows, 0, Seq::empty(), max_bytes, committed_before),
                max_bytes,
                committed_before,
            ),
{
    let n = fetches_end_rightly(rows, 0, Seq::empty(), max_bytes, committed_before);
}

/// What the name of a state says: what was committed is told as committed, what was aborted as aborted,
/// and all else, as far as it has a name, as open to everybody.
pub open spec fn says(name: Seq<char>, state: CompactionTransactionState) -> bool {
    match state {
        CompactionTransactionState::Committed => name == "committed"@,
        CompactionTransactionState::Aborted => name == "aborted"@,
        CompactionTransactionState::Visible => name == "visible"@ || name == "pending"@,
    }
}

proof fn names_say_states(name: Seq<char>)
    ensures
        match row_rules::state_named(name) {
            Some(state) => says(name, state),
            None => name != "visible"@ && name != "pending"@ && name != "committed"@ && name != "aborted"@,
        },
{
}

/// Whether a compaction takes rightly the first `n` rows: each old enough and settled, under its id and
/// with what became of it; and there are no more, or the next is too young or not settled.
pub open spec fn takes_rightly(rows: Seq<SpanRowView>, ids: Seq<i64>, cutoff_ms: i64, n: int, taken: Seq<CompactionSourceSpanView>) -> bool {
    &&& 0 <= n <= rows.len()
    &&& taken.len() == n
    &&& forall|i: int|
        #![trigger rows[i]]
        #![trigger taken[i]]
        0 <= i < n ==> rows[i].span.timestamp_ms <= cutoff_ms && rows[i].state != "pending"@ && taken[i].id == ids[i] && taken[i].span
            == rows[i].span && says(rows[i].state, taken[i].transaction_state)
}

proof fn compactions_take_rightly(rows: Seq<SpanRowView>, ids: Seq<i64>, cutoff_ms: i64, i: int, taken: Seq<CompactionSourceSpanView>)
    requires
        takes_rightly(rows, ids, cutoff_ms, i, taken),
    ensures
        match row_rules::rows_compactable(rows, ids, cutoff_ms, i, taken) {
            Ok(list) => takes_rightly(rows, ids, cutoff_ms, list.len() as int, list) && (list.len() < rows.len()
                ==> rows[list.len() as int].span.timestamp_ms > cutoff_ms || rows[list.len() as int].state == "pending"@),
            Err(_) => exists|k: int|
                0 <= k < rows.len() && (#[trigger] rows[k]).state != "visible"@ && rows[k].state != "pending"@ && rows[k].state != "committed"@
                    && rows[k].state != "aborted"@,
        },
    decreases rows.len() - i,
{
    if i < rows.len() && rows[i].span.timestamp_ms <= cutoff_ms {
        names_say_states(rows[i].state);
        match row_rules::state_named(rows[i].state) {
            None => {
                assert(rows[i].state != "visible"@);
            },
            Some(state) => {
                if rows[i].state != "pending"@ {
                    let more = taken.push(CompactionSourceSpanView { id: ids[i], span: rows[i].span, transaction_state: state });
                    assert forall|k: int| #![trigger rows[k]] #![trigger more[k]] 0 <= k < i + 1 implies rows[k].span.timestamp_ms <= cutoff_ms
                        && rows[k].state != "pending"@ && more[k].id == ids[k] && more[k].span == rows[k].span && says(
                        rows[k].state,
                        more[k].transaction_state,
                    ) by {
                        if k < i {
                            assert(more[k] == taken[k]);
                        }
                    }
                    compactions_take_rightly(rows, ids, cutoff_ms, i + 1, more);
                }
            },
        }
    }
}

/// What of a log's rows is compacted: those from the first on that are old enough and settled, each with
/// what became of its transaction; and it is refused only where a row has a state without a meaning.
pub proof fn settled_rows_are_compacted(rows: Seq<SpanRowView>, ids: Seq<i64>, cutoff_ms: i64)
    ensures
        match row_rules::rows_compactable(rows, ids, cutoff_ms, 0, Seq::empty()) {
            Ok(list) => takes_rightly(rows, ids, cutoff_ms, list.len() as int, list) && (list.len() < rows.len()
                ==> rows[list.len() as int].span.timestamp_ms > cutoff_ms || rows[list.len() as int].state == "pending"@),
            Err(_) => exists|k: int|
                0 <= k < rows.len() && (#[trigger] rows[k]).state != "visible"@ && rows[k].state != "pending"@ && rows[k].state != "committed"@
                    && rows[k].state != "aborted"@,
        },
{
    compactions_take_rightly(rows, ids, cutoff_ms, 0, Seq::empty());
}

/// How far a deletion of records goes: as far as it asks, and to the end where it asks for all, but not
/// into open transactions; and what was deleted before stays deleted. It can ask for no offset that the
/// log does not have.
pub proof fn row_deletions_go_as_far_as_asked(p: PartitionKeyView, before_offset: i64, next_offset: i64, log_start_offset: i64, first_open: Option<i64>)
    requires
        0 <= log_start_offset <= next_offset,
    ensures
        ({
            let outcome = row_rules::new_start(p, before_offset, next_offset, log_start_offset, first_open);
            let start = outcome->Ok_0;
            let end = if before_offset == -1 {
                next_offset
            } else {
                before_offset
            };
            &&& outcome is Err <==> before_offset < -1 || before_offset > next_offset
            &&& outcome is Ok ==> start >= log_start_offset
            &&& outcome is Ok && (first_open is None || first_open->0 >= end) ==> start >= end && (start == end || start == log_start_offset)
            &&& outcome is Ok && first_open is Some && first_open->0 < end ==> start == first_open->0 || (start == log_start_offset
                && first_open->0 <= log_start_offset)
        }),
{
}

/// Which objects may be committed: those that were staged with the same size, and neither committed nor
/// claimed since.
pub proof fn staged_objects_are_committed_once(object: ObjectRefView, row: Option<ObjectRow>)
    ensures
        row_rules::staged_verdict(object, row) is Ok <==> row is Some && !row->0.committed && !row->0.claimed && row->0.size_bytes == object.size,
{
}

/// Which offsets may be stored, given what exists, and when they expire.
pub proof fn row_offsets_are_well_formed(offset: OffsetCommitView, topic_exists: bool, partition_exists: bool, now_ms: i64)
    ensures
        ({
            let outcome = row_rules::commit_verdict(offset, topic_exists, partition_exists, now_ms);
            let kept = offset.retention_time_ms;
            &&& outcome is Ok ==> offset.offset >= 0 && topic_exists && partition_exists && (kept is Some ==> kept->0 >= 0)
            &&& outcome is Ok && kept is None ==> outcome->Ok_0 is None
            &&& outcome is Ok && kept is Some ==> outcome->Ok_0 == Some((now_ms + kept->0) as i64) && now_ms + kept->0 <= i64::MAX
            &&& offset.offset >= 0 && topic_exists && partition_exists && kept is None ==> outcome is Ok
            &&& offset.offset >= 0 && topic_exists && partition_exists && kept is Some && kept->0 >= 0 && now_ms + kept->0 <= i64::MAX && now_ms
                >= 0 ==> outcome is Ok
        }),
{
}

/// Whether the columns of a group that has members are filled in.
pub open spec fn is_filled_in(g: RowGroupView) -> bool {
    &&& g.members.dom().finite()
    &&& g.members != Map::<Seq<char>, GroupMemberView>::empty()
    &&& g.protocol_type.len() > 0
    &&& g.protocol_name is Some && g.protocol_name->0.len() > 0
    &&& g.leader is Some && g.leader->0.len() > 0 && g.members.contains_key(g.leader->0)
}

/// Joining a group in rows leads to what joining the same group in memory leads to: the same seat, in the
/// same generation, under the same leader; or a new id; or a refusal.
pub proof fn groups_in_rows_are_joined_alike(
    g: RowGroupView,
    s: ClassicGroupsView,
    request: JoinRequestView,
    now: int,
    fresh: Seq<char>,
)
    requires
        i128::MIN <= now < i128::MAX,
        is_filled_in(g),
        s.groups.contains_key(request.group_id),
        s.groups[request.group_id] == row_groups::as_group(g),
        classic_join_laws::is_in_order(row_groups::as_group(g), now),
    ensures
        ({
            let pending = classic_join::unlapsed(s.pending_members, request.group_id, now);
            let (after, answer) = classic_join::joined(s, request, now, fresh);
            match row_groups::row_joined(g, pending, request, false, now, fresh) {
                Err(_) => answer is Err,
                Ok(RowJoinView::IdRequired(id)) => answer is Err && answer->Err_0 == (ControlErrorView::MemberIdRequired { member_id: id }),
                Ok(RowJoinView::Seated(seat)) => {
                    let told = answer->Ok_0;
                    let h = after.groups[request.group_id];
                    &&& answer is Ok
                    &&& told.member_id == seat.member.member_id
                    &&& told.generation_id == seat.generation_id
                    &&& told.protocol_name == seat.protocol_name
                    &&& told.leader == seat.told_leader
                    &&& told.skip_assignment == seat.skip_assignment
                    &&& h.leader == seat.leader
                    &&& h.members.contains_key(told.member_id)
                    &&& seat.rebalance ==> forall|x: Seq<char>| !(#[trigger] h.assignments.contains_key(x))
                },
            }
        }),
{
    let b = row_groups::as_group(g);
    let gid = request.group_id;
    classic_join_laws::nobody_expires(b, now);
    let c = classic_join::cleared(s, gid, now);
    let group = c.groups.get(gid);
    let d = group->0;
    assert(d == (MemoryGroupView { empty_since: d.empty_since, ..b }));
    let pending = classic_join::unlapsed(s.pending_members, gid, now);
    assert(classic_join::resolved(group, pending, request, fresh) == classic_join::resolved(Some(b), pending, request, fresh));
    if request.group_instance_id is Some {
        classic_laws::owner_holds_instance(g.members, request.group_instance_id->0);
    }
    match row_groups::row_joined(g, pending, request, false, now, fresh) {
        Ok(RowJoinView::Seated(seat)) => {
            let (id, replaced) = classic_join::resolved(group, pending, request, fresh)->Ok_0;
            let existing = request.requested_member_id.len() > 0 && g.members.contains_key(request.requested_member_id);
            let (h, told) = classic_join::seating(d, request, id, replaced, existing, now);
            let rest = classic_join::others(g.members, id, replaced);
            assert(h.members.dom() =~= rest.dom().insert(id));
        },
        _ => {},
    }
}

/// Joining a group in rows through its barrier leads to what joining the same group in memory leads to.
pub proof fn groups_in_rows_are_begun_alike(
    g: RowGroupView,
    s: ClassicGroupsView,
    request: JoinRequestView,
    now: int,
    fresh: Seq<char>,
    fresh_rebalance: u128,
)
    requires
        i128::MIN <= now < i128::MAX,
        is_filled_in(g),
        s.groups.contains_key(request.group_id),
        s.groups[request.group_id] == row_groups::as_group(g),
        classic_join_laws::is_in_order(row_groups::as_group(g), now),
        classic_join::complete(request),
    ensures
        ({
            let pending = classic_join::unlapsed(s.pending_members, request.group_id, now);
            let (after, answer) = classic_barrier::begun(s, request, now, fresh, fresh_rebalance);
            match row_groups::row_begun(g, g.assignments.dom().len() as int, pending, request, false, now, fresh, fresh_rebalance) {
                Err(refusal) => answer is Err && (refusal is InvalidRequest || answer->Err_0 == refusal),
                Ok(RowBeginView::IdRequired(id)) => answer is Err && answer->Err_0 == (ControlErrorView::MemberIdRequired { member_id: id }),
                Ok(RowBeginView::Seated(seat)) => {
                    let told = answer->Ok_0;
                    let h = after.groups[request.group_id];
                    let id = seat.member.member_id;
                    &&& answer is Ok
                    &&& told.member_id == id
                    &&& h.members.contains_key(id)
                    &&& h.members[id].joined_rebalance_id == seat.member.joined_rebalance_id
                    &&& match seat.course {
                        RowCourseView::Stay { told_leader, skip_assignment } => !h.rebalance_pending && h.generation_id == g.generation_id
                            && told.leader == told_leader && told.skip_assignment == skip_assignment && told.protocol_name == seat.protocol_name
                            && h.leader == seat.leader,
                        RowCourseView::Start { rebalance_id, initial } => !g.rebalance_pending && h.rebalance_id == Some(rebalance_id) && !initial,
                        RowCourseView::Extend => g.rebalance_pending && h.rebalance_id == g.rebalance_id,
                    }
                },
            }
        }),
{
    let b = row_groups::as_group(g);
    let gid = request.group_id;
    classic_join_laws::nobody_expires(b, now);
    let c = classic_barrier::swept(s, gid, now);
    let group = c.groups.get(gid);
    let d = group->0;
    assert(d == (MemoryGroupView { empty_since: d.empty_since, ..b }));
    let pending = classic_join::unlapsed(s.pending_members, gid, now);
    assert(classic_join::resolved(group, pending, request, fresh) == classic_join::resolved(Some(b), pending, request, fresh));
    if request.group_instance_id is Some {
        classic_laws::owner_holds_instance(g.members, request.group_instance_id->0);
    }
    assert(g.members.dom().len() > 0) by {
        assert(g.members.dom().contains(g.leader->0));
        if g.members.dom().len() == 0 {
            g.members.dom().lemma_len0_is_empty();
        }
    }
    match row_groups::row_begun(g, g.assignments.dom().len() as int, pending, request, false, now, fresh, fresh_rebalance) {
        Ok(RowBeginView::Seated(seat)) => {
            let (id, replaced) = classic_join::resolved(group, pending, request, fresh)->Ok_0;
            let full = classic_join::seated(d, request.protocol_type, seat.member, replaced, seat.protocol_name);
            let rest = classic_join::others(g.members, id, replaced);
            assert(full.members.dom() =~= rest.dom().insert(id));
            assert(full.members.contains_key(id));
        },
        _ => {},
    }
}

/// A rebalance of a group in rows ends just when that of the same group in memory does: with the same
/// members gone, under the same leader and with the same protocol.
pub proof fn rebalances_in_rows_end_alike(g: RowGroupView, group_id: Seq<char>, now: int, x: Seq<char>)
    requires
        is_filled_in(g),
        classic_laws::sound(row_groups::as_group(g)),
        g.generation_id < i32::MAX,
    ensures
        ({
            let late = g.rebalance_deadline is Some && g.rebalance_deadline->0 <= now;
            let waited = g.initial_rebalance_deadline is None || g.initial_rebalance_deadline->0 <= now;
            let after = classic_barrier::progressed(row_groups::as_group(g), now);
            match row_groups::row_finished(g, group_id, late, waited) {
                Err(_) => true,
                Ok(None) => after == row_groups::as_group(g),
                Ok(Some(finish)) => {
                    &&& after.generation_id == g.generation_id + 1
                    &&& !after.rebalance_pending
                    &&& after.protocol_name == finish.protocol_name
                    &&& after.leader == finish.leader
                    &&& finish.gone.contains(x) <==> g.members.contains_key(x) && !after.members.contains_key(x)
                },
            }
        }),
{
    let b = row_groups::as_group(g);
    let late = classic_barrier::timed_out(b, now);
    let rest = row_groups::still_there(g, late);
    if g.rebalance_pending && classic_barrier::ready(b, now) {
        let out = g.members.dom().difference(rest.dom());
        sorted_map::finite_sets_are_listed::<String>(out);
        let ids = classic_groups::ordered(out);
        assert(ids.to_set().contains(x) == out.contains(x));
        let joined = sorted_map::filtered(rest, |id: Seq<char>, member: GroupMemberView| classic_barrier::has_joined(b, member));
        let left = if late {
            MemoryGroupView {
                members: sorted_map::filtered(b.members, |id: Seq<char>, member: GroupMemberView| !classic_barrier::left_behind(b, member)),
                assignments: sorted_map::filtered(
                    b.assignments,
                    |id: Seq<char>, bytes: Seq<u8>| !(b.members.contains_key(id) && classic_barrier::left_behind(b, b.members[id])),
                ),
                ..b
            }
        } else {
            b
        };
        assert(left.members =~= rest);
        let same = sorted_map::filtered(left.members, |id: Seq<char>, member: GroupMemberView| classic_barrier::has_joined(left, member));
        assert(joined.dom() =~= same.dom());
        let h = classic_barrier::gathered(b, now);
        assert(classic_barrier::progressed(b, now) == h);
        assert(h.leader == row_groups::leader_among(joined.dom(), g.leader));
        assert(h.members.dom() =~= rest.dom());
    }
}

/// What is left of a group in rows after members have gone: it is in its next generation; and where some
/// are left, one of them leads, the present leader if it is left, and they speak a protocol that all of
/// them offer.
pub proof fn groups_in_rows_go_on_without_the_gone(members: Map<Seq<char>, GroupMemberView>, generation_id: i32, leader: Option<Seq<char>>, name: Seq<char>)
    requires
        members.dom().finite(),
        generation_id < i32::MAX,
        classic_laws::all_offer(members, name),
    ensures
        ({
            let after = row_groups::row_removed(members, generation_id, leader);
            &&& after.generation_id == generation_id + 1
            &&& after.agreed is None <==> forall|x: Seq<char>| !(#[trigger] members.contains_key(x))
            &&& after.agreed is Some ==> members.contains_key((after.agreed->0).1) && classic_laws::all_offer(members, (after.agreed->0).0)
            &&& after.agreed is Some && leader is Some && members.contains_key(leader->0) ==> (after.agreed->0).1 == leader->0
        }),
{
    if forall|x: Seq<char>| !(#[trigger] members.contains_key(x)) {
        assert(members =~= Map::<Seq<char>, GroupMemberView>::empty());
    } else {
        let x = choose|x: Seq<char>| #[trigger] members.contains_key(x);
        sorted_map::finite_sets_are_listed::<String>(members.dom());
        let ids = classic_groups::ordered(members.dom());
        assert(ids.to_set().contains(x));
        assert(ids.to_set().contains(ids[0]));
        let sets = classic_groups::member_sets(members);
        assert forall|i: int| 0 <= i < sets.len() implies groups::offers(#[trigger] sets[i], name) by {
            assert(ids.to_set().contains(ids[i]));
        }
        assert(groups::offered_by_all(sets, name));
        groups::selection_is_offered_by_all(sets);
        let chosen = groups::selected(sets)->0;
        assert forall|y: Seq<char>| #[trigger] members.contains_key(y) implies groups::offers(members[y].protocols, chosen) by {
            assert(ids.to_set().contains(y));
            let i = choose|i: int| 0 <= i < ids.len() && ids[i] == y;
            assert(groups::offers(sets[i], chosen));
        }
    }
}

} // verus!
