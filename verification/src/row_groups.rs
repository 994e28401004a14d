//! Classic groups whose members are rows of a database: what a request leads to, given the group as it
//! was read and what the database's clock says.

use crate::classic_barrier;
use crate::classic_barrier::same_offers;
use crate::classic_groups;
use crate::classic_groups::{protocol_sets, same_rebalance, smallest_member, MemoryGroup, MemoryGroupView};
use crate::classic_join;
use crate::classic_join::{
    agree, clear_seats, make_member, resolve_member_id, same_protocol_names, JoinRequest, JoinRequestView,
};
use crate::classic_members;
use crate::classic_members::find_leaver;
use crate::error;
use crate::error::{ControlError, ControlErrorView};
use crate::groups;
use crate::groups::{
    GroupMember, GroupMemberIdentity, GroupMemberIdentityView, GroupMemberView, LeaveGroupMemberError,
    LeaveGroupMemberResult,
};
use crate::sorted_map;
use crate::sorted_map::{Duplicate, SortedMap};
use crate::text::{same_text, same_texts};
use crate::time::Timestamp;
use vstd::prelude::*;

verus! {

/// The row of a group and those of its members. The columns for the protocol and the leader may be
/// empty, which is not the same as empty text.
pub struct RowGroup {
    pub generation_id: i32,
    pub protocol_type: String,
    pub protocol_name: Option<String>,
    pub leader: Option<String>,
    pub members: SortedMap<String, GroupMember>,
    pub assignments: SortedMap<String, Vec<u8>>,
    pub rebalance_id: Option<u128>,
    pub rebalance_pending: bool,
    pub rebalance_started_at: Option<Timestamp>,
    pub rebalance_deadline: Option<Timestamp>,
    pub initial_rebalance_deadline: Option<Timestamp>,
    pub empty_since: Option<Timestamp>,
}

/// The model of [`RowGroup`].
pub struct RowGroupView {
    pub generation_id: i32,
    pub protocol_type: Seq<char>,
    pub protocol_name: Option<Seq<char>>,
    pub leader: Option<Seq<char>>,
    pub members: Map<Seq<char>, GroupMemberView>,
    pub assignments: Map<Seq<char>, Seq<u8>>,
    pub rebalance_id: Option<u128>,
    pub rebalance_pending: bool,
    pub rebalance_started_at: Option<int>,
    pub rebalance_deadline: Option<int>,
    pub initial_rebalance_deadline: Option<int>,
    pub empty_since: Option<int>,
}

impl DeepView for RowGroup {
    type V = RowGroupView;

    open spec fn deep_view(&self) -> RowGroupView {
        RowGroupView {
            generation_id: self.generation_id,
            protocol_type: self.protocol_type@,
            protocol_name: self.protocol_name.deep_view(),
            leader: self.leader.deep_view(),
            members: self.members.deep_view(),
            assignments: self.assignments.deep_view(),
            rebalance_id: self.rebalance_id,
            rebalance_pending: self.rebalance_pending,
            rebalance_started_at: self.rebalance_started_at.deep_view(),
            rebalance_deadline: self.rebalance_deadline.deep_view(),
            initial_rebalance_deadline: self.initial_rebalance_deadline.deep_view(),
            empty_since: self.empty_since.deep_view(),
        }
    }
}

/// A group of which there is no row yet.
pub open spec fn no_row() -> RowGroupView {
    RowGroupView {
        generation_id: 0,
        protocol_type: Seq::empty(),
        protocol_name: None,
        leader: None,
        members: Map::empty(),
        assignments: Map::empty(),
        rebalance_id: None,
        rebalance_pending: false,
        rebalance_started_at: None,
        rebalance_deadline: None,
        initial_rebalance_deadline: None,
        empty_since: None,
    }
}

/// The text of a column; empty text where the column is empty.
pub open spec fn or_empty(column: Option<Seq<char>>) -> Seq<char> {
    match column {
        Some(text) => text,
        None => Seq::empty(),
    }
}

/// The group as a store in memory holds it.
pub open spec fn as_group(g: RowGroupView) -> MemoryGroupView {
    MemoryGroupView {
        generation_id: g.generation_id,
        protocol_type: g.protocol_type,
        protocol_name: or_empty(g.protocol_name),
        leader: or_empty(g.leader),
        members: g.members,
        assignments: g.assignments,
        rebalance_id: g.rebalance_id,
        rebalance_pending: g.rebalance_pending,
        rebalance_started_at: g.rebalance_started_at,
        rebalance_deadline: g.rebalance_deadline,
        initial_rebalance_deadline: g.initial_rebalance_deadline,
        empty_since: g.empty_since,
    }
}

fn text_of(column: &Option<String>) -> (r: String)
    ensures
        r@ == or_empty(column.deep_view()),
{
    match column {
        Some(text) => text.clone(),
        None => String::new(),
    }
}

impl RowGroup {
    /// A group of which there is no row yet.
    pub fn new() -> (r: Self)
        ensures
            r.deep_view() == no_row(),
    {
        RowGroup {
            generation_id: 0,
            protocol_type: String::new(),
            protocol_name: None,
            leader: None,
            members: SortedMap::new(),
            assignments: SortedMap::new(),
            rebalance_id: None,
            rebalance_pending: false,
            rebalance_started_at: None,
            rebalance_deadline: None,
            initial_rebalance_deadline: None,
            empty_since: None,
        }
    }

    /// The group as a store in memory holds it.
    pub fn to_group(&self) -> (r: MemoryGroup)
        ensures
            r.deep_view() == as_group(self.deep_view()),
    {
        MemoryGroup {
            generation_id: self.generation_id,
            protocol_type: self.protocol_type.clone(),
            protocol_name: text_of(&self.protocol_name),
            leader: text_of(&self.leader),
            members: self.members.duplicate(),
            assignments: self.assignments.duplicate(),
            rebalance_id: self.rebalance_id,
            rebalance_pending: self.rebalance_pending,
            rebalance_started_at: self.rebalance_started_at,
            rebalance_deadline: self.rebalance_deadline,
            initial_rebalance_deadline: self.initial_rebalance_deadline,
            empty_since: self.empty_since,
        }
    }
}

/// The verdict on a request to join.
pub open spec fn request_verdict(request: JoinRequestView) -> Result<(), ControlErrorView> {
    if classic_join::complete(request) {
        Ok(())
    } else {
        Err(ControlErrorView::InvalidRequest("group id, protocol type, protocols, and session timeout are required"@))
    }
}

/// Checks that a request to join is complete.
pub fn validate_join(request: &JoinRequest) -> (r: Result<(), ControlError>)
    ensures
        error::outcome(r) == request_verdict(request.deep_view()),
{
    if request.group_id.as_str().is_empty() || request.protocol_type.as_str().is_empty() || request.protocols.len() == 0
        || request.session_timeout_ms <= 0 {
        return Err(
            ControlError::InvalidRequest("group id, protocol type, protocols, and session timeout are required".to_owned()),
        );
    }
    Ok(())
}

/// The verdict on a request to join a group that gathers.
pub open spec fn limits_verdict(request: JoinRequestView) -> Result<(), ControlErrorView> {
    if request.rebalance_timeout_ms <= 0 || request.initial_rebalance_delay_ms < 0 || request.max_size <= 0 {
        Err(
            ControlErrorView::InvalidRequest("rebalance timeout and maximum size must be positive and initial delay non-negative"@),
        )
    } else {
        Ok(())
    }
}

/// Whether the members of a group can speak with one that brings these protocols. A group without
/// members speaks any type of protocol.
pub open spec fn compatible(g: RowGroupView, request: JoinRequestView) -> bool {
    &&& g.members == Map::<Seq<char>, GroupMemberView>::empty() || g.protocol_type == request.protocol_type
    &&& classic_join::agreed(g.members, groups::offered(request.protocols)) is Some
}

/// Checks that the members of a group can speak with a newcomer.
pub fn validate_protocols(group: &RowGroup, request: &JoinRequest) -> (r: Result<(), ControlError>)
    ensures
        error::outcome(r) == (if compatible(group.deep_view(), request.deep_view()) {
            Ok::<(), ControlErrorView>(())
        } else {
            Err(ControlErrorView::InconsistentGroupProtocol(request.group_id@))
        }),
        sorted_map::lists_in_order::<String>(
            classic_groups::ordered(group.deep_view().members.dom()),
            group.deep_view().members.dom(),
        ),
{
    let empty = group.members.is_empty();
    assert(empty == (group.members.deep_view() == Map::<Seq<char>, GroupMemberView>::empty())) by {
        if empty {
            assert(group.members.deep_view() =~= Map::empty());
        }
    }
    let incoming = groups::protocols(request.protocols.as_slice());
    assert(sorted_map::models(request.protocols@) =~= request.protocols.deep_view());
    let name = agree(&group.members, &incoming);
    if (!empty && !same_text(group.protocol_type.as_str(), request.protocol_type.as_str())) || name.is_none() {
        return Err(ControlError::InconsistentGroupProtocol(request.group_id.clone()));
    }
    Ok(())
}

/// A seat in a group: the member's row, the row that it takes over, and what the group's row says from
/// then on.
#[derive(Debug, Clone, PartialEq, Eq)]
pub struct RowSeat {
    pub member: GroupMember,
    pub replaced: Option<String>,
    pub protocol_name: String,
    pub rebalance: bool,
    pub generation_id: i32,
    pub leader: String,
    pub told_leader: String,
    pub skip_assignment: bool,
}

/// The model of [`RowSeat`].
pub struct RowSeatView {
    pub member: GroupMemberView,
    pub replaced: Option<Seq<char>>,
    pub protocol_name: Seq<char>,
    pub rebalance: bool,
    pub generation_id: i32,
    pub leader: Seq<char>,
    pub told_leader: Seq<char>,
    pub skip_assignment: bool,
}

impl DeepView for RowSeat {
    type V = RowSeatView;

    open spec fn deep_view(&self) -> RowSeatView {
        RowSeatView {
            member: self.member.deep_view(),
            replaced: self.replaced.deep_view(),
            protocol_name: self.protocol_name@,
            rebalance: self.rebalance,
            generation_id: self.generation_id,
            leader: self.leader@,
            told_leader: self.told_leader@,
            skip_assignment: self.skip_assignment,
        }
    }
}

/// What a request to join leads to.
#[derive(Debug, Clone, PartialEq, Eq)]
pub enum RowJoin {
    /// The member has to come back under this id.
    IdRequired(String),
    /// The member takes this seat.
    Seated(RowSeat),
}

/// The model of [`RowJoin`].
pub enum RowJoinView {
    IdRequired(Seq<char>),
    Seated(RowSeatView),
}

impl DeepView for RowJoin {
    type V = RowJoinView;

    open spec fn deep_view(&self) -> RowJoinView {
        match self {
            RowJoin::IdRequired(id) => RowJoinView::IdRequired(id@),
            RowJoin::Seated(seat) => RowJoinView::Seated(seat.deep_view()),
        }
    }
}

/// The leader of a group: the present one if it is among the members, else the one with the smallest
/// id.
pub open spec fn leader_among(ids: Set<Seq<char>>, current: Option<Seq<char>>) -> Seq<char> {
    if current is Some && ids.contains(current->0) {
        current->0
    } else {
        classic_groups::smallest(ids)
    }
}

/// Whether the seat that is taken over is the leader's.
pub open spec fn leader_replaced(leader: Option<Seq<char>>, replaced: Option<Seq<char>>) -> bool {
    replaced is Some && leader == replaced
}

/// The leader's id after a seat has been taken over.
pub open spec fn leader_renamed(leader: Option<Seq<char>>, id: Seq<char>, replaced: Option<Seq<char>>) -> Option<Seq<char>> {
    if leader_replaced(leader, replaced) {
        Some(id)
    } else {
        leader
    }
}

/// Whether a group that has a protocol changes it.
pub open spec fn changes_protocol(current: Option<Seq<char>>, name: Seq<char>) -> bool {
    current is Some && current->0 != name
}

/// The seat that a member takes. The generation is the next one where members have gone, where the
/// member is new or comes with other protocols or topics, or where the group changes its protocol.
pub open spec fn seat_taken(
    g: RowGroupView,
    request: JoinRequestView,
    id: Seq<char>,
    replaced: Option<Seq<char>>,
    existing: bool,
    expired: bool,
    now: int,
) -> RowSeatView {
    let incoming = groups::offered(request.protocols);
    let rest = classic_join::others(g.members, id, replaced);
    let name = classic_join::agreed(rest, incoming)->0;
    let previous = classic_join::predecessor(as_group(g), id, replaced, existing);
    let protocol_changed = changes_protocol(g.protocol_name, name);
    let member_changed = previous is Some && (classic_join::protocol_names(previous->0.protocols) != classic_join::protocol_names(incoming)
        || previous->0.subscribed_topics != request.subscribed_topics);
    let rebalance = expired || (previous is None && replaced is None) || member_changed || protocol_changed;
    let leader = leader_among(rest.dom().insert(id), leader_renamed(g.leader, id, replaced));
    RowSeatView {
        member: classic_join::newcomer(request, id, name, request.session_timeout_ms, now, None),
        replaced,
        protocol_name: name,
        rebalance,
        generation_id: if rebalance {
            (g.generation_id + 1) as i32
        } else {
            g.generation_id
        },
        leader,
        told_leader: if leader_replaced(g.leader, replaced) && request.api_version < 9 && !rebalance {
            replaced->0
        } else {
            leader
        },
        skip_assignment: request.api_version >= 9 && replaced is Some && !rebalance && leader == id,
    }
}

/// What a request to join leads to, or why it is refused. `expired` says that members have just gone
/// whose sessions ran out.
pub open spec fn row_joined(
    g: RowGroupView,
    pending: Map<(Seq<char>, Seq<char>), int>,
    request: JoinRequestView,
    expired: bool,
    now: int,
    fresh: Seq<char>,
) -> Result<RowJoinView, ControlErrorView> {
    let requested = request.requested_member_id;
    match request_verdict(request) {
        Err(refusal) => Err(refusal),
        Ok(_) => if !compatible(g, request) {
            Err(ControlErrorView::InconsistentGroupProtocol(request.group_id))
        } else if request.group_instance_id is None && requested.len() == 0 && request.api_version >= 4 {
            Ok(RowJoinView::IdRequired(classic_join::made_member_id(request.client_id, fresh)))
        } else {
            match classic_join::resolved(Some(as_group(g)), pending, request, fresh) {
                Err(refusal) => Err(refusal),
                Ok((id, replaced)) => Ok(
                    RowJoinView::Seated(
                        seat_taken(g, request, id, replaced, requested.len() > 0 && g.members.contains_key(requested), expired, now),
                    ),
                ),
            }
        },
    }
}

fn choose_leader(rest: &SortedMap<String, GroupMember>, member: &GroupMember, current: &Option<String>) -> (r: String)
    ensures
        r@ == leader_among(rest.deep_view().dom().insert(member.deep_view().member_id), current.deep_view()),
{
    let mut all = rest.duplicate();
    all.insert(member.member_id.clone(), member.duplicate());
    assert(all.deep_view().dom() =~= rest.deep_view().dom().insert(member.deep_view().member_id));
    keep_leader(&all, current)
}

fn keep_leader(members: &SortedMap<String, GroupMember>, current: &Option<String>) -> (r: String)
    ensures
        r@ == leader_among(members.deep_view().dom(), current.deep_view()),
{
    if let Some(leader) = current {
        if members.contains_key(leader) {
            return leader.clone();
        }
    }
    smallest_member(members)
}

fn rename_leader(leader: &Option<String>, id: &String, replaced: &Option<String>) -> (r: (Option<String>, bool))
    ensures
        r.0.deep_view() == leader_renamed(leader.deep_view(), id@, replaced.deep_view()),
        r.1 == leader_replaced(leader.deep_view(), replaced.deep_view()),
{
    match (leader, replaced) {
        (Some(current), Some(old_id)) => if same_text(old_id.as_str(), current.as_str()) {
            (Some(id.clone()), true)
        } else {
            (Some(current.clone()), false)
        },
        (Some(current), None) => (Some(current.clone()), false),
        (None, _) => (None, false),
    }
}

fn is_protocol_changed(current: &Option<String>, name: &String) -> (r: bool)
    ensures
        r == changes_protocol(current.deep_view(), name@),
{
    match current {
        Some(current) => !same_text(current.as_str(), name.as_str()),
        None => false,
    }
}

/// Decides what a request to join leads to.
pub fn join_rows(
    group: &RowGroup,
    pending: &SortedMap<(String, String), Timestamp>,
    request: &JoinRequest,
    expired: bool,
    now: Timestamp,
    fresh: &str,
) -> (r: Result<RowJoin, ControlError>)
    requires
        group.generation_id < i32::MAX,
    ensures
        error::outcome(r) == row_joined(group.deep_view(), pending.deep_view(), request.deep_view(), expired, now.deep_view(), fresh@),
{
    let ghost g = group.deep_view();
    validate_join(request)?;
    validate_protocols(group, request)?;
    if request.group_instance_id.is_none() && request.requested_member_id.as_str().is_empty() && request.api_version >= 4 {
        return Ok(RowJoin::IdRequired(classic_join::make_member_id(request.client_id.as_str(), fresh)));
    }
    let mut rest = group.to_group();
    let (id, replaced) = resolve_member_id(Some(&rest), pending, request, fresh)?;
    let existing = !request.requested_member_id.as_str().is_empty() && group.members.contains_key(&request.requested_member_id);
    let incoming = groups::protocols(request.protocols.as_slice());
    assert(sorted_map::models(request.protocols@) =~= request.protocols.deep_view());
    let (name, previous) = clear_seats(&mut rest, &id, &replaced, existing, &incoming);
    let protocol_changed = is_protocol_changed(&group.protocol_name, &name);
    let member_changed = match &previous {
        Some(member) => !same_protocol_names(&member.protocols, &incoming) || !same_texts(
            &member.subscribed_topics,
            &request.subscribed_topics,
        ),
        None => false,
    };
    let rebalance = expired || (previous.is_none() && replaced.is_none()) || member_changed || protocol_changed;
    let member = make_member(request, &id, incoming, &name, request.session_timeout_ms, now, None);
    let (kept, took_over_leader) = rename_leader(&group.leader, &id, &replaced);
    let leader = choose_leader(&rest.members, &member, &kept);
    let skip_assignment = request.api_version >= 9 && replaced.is_some() && !rebalance && same_text(leader.as_str(), id.as_str());
    Ok(
        RowJoin::Seated(
            RowSeat {
                member,
                replaced,
                protocol_name: name,
                rebalance,
                generation_id: if rebalance {
                    group.generation_id + 1
                } else {
                    group.generation_id
                },
                told_leader: if took_over_leader && request.api_version < 9 && !rebalance {
                    text_of(&group.leader)
                } else {
                    leader.clone()
                },
                leader,
                skip_assignment,
            },
        ),
    )
}

/// How a group goes on once a member has its seat.
#[derive(Debug, Clone, PartialEq, Eq)]
pub enum RowCourse {
    /// The generation stays; the member is told of this leader.
    Stay { told_leader: String, skip_assignment: bool },
    /// A rebalance starts, with an initial delay where the group had no members.
    Start { rebalance_id: u128, initial: bool },
    /// The rebalance under way gets more time.
    Extend,
}

/// The model of [`RowCourse`].
pub enum RowCourseView {
    Stay { told_leader: Seq<char>, skip_assignment: bool },
    Start { rebalance_id: u128, initial: bool },
    Extend,
}

impl DeepView for RowCourse {
    type V = RowCourseView;

    open spec fn deep_view(&self) -> RowCourseView {
        match self {
            RowCourse::Stay { told_leader, skip_assignment } => RowCourseView::Stay {
                told_leader: told_leader@,
                skip_assignment: *skip_assignment,
            },
            RowCourse::Start { rebalance_id, initial } => RowCourseView::Start { rebalance_id: *rebalance_id, initial: *initial },
            RowCourse::Extend => RowCourseView::Extend,
        }
    }
}

/// A seat in a group that gathers before each generation.
#[derive(Debug, Clone, PartialEq, Eq)]
pub struct RowBeginning {
    pub member: GroupMember,
    pub replaced: Option<String>,
    pub protocol_name: String,
    pub leader: String,
    pub course: RowCourse,
}

/// The model of [`RowBeginning`].
pub struct RowBeginningView {
    pub member: GroupMemberView,
    pub replaced: Option<Seq<char>>,
    pub protocol_name: Seq<char>,
    pub leader: Seq<char>,
    pub course: RowCourseView,
}

impl DeepView for RowBeginning {
    type V = RowBeginningView;

    open spec fn deep_view(&self) -> RowBeginningView {
        RowBeginningView {
            member: self.member.deep_view(),
            replaced: self.replaced.deep_view(),
            protocol_name: self.protocol_name@,
            leader: self.leader@,
            course: self.course.deep_view(),
        }
    }
}

/// What a request to join a group that gathers leads to.
#[derive(Debug, Clone, PartialEq, Eq)]
pub enum RowBegin {
    /// The member has to come back under this id.
    IdRequired(String),
    /// The member takes this seat.
    Seated(RowBeginning),
}

/// The model of [`RowBegin`].
pub enum RowBeginView {
    IdRequired(Seq<char>),
    Seated(RowBeginningView),
}

impl DeepView for RowBegin {
    type V = RowBeginView;

    open spec fn deep_view(&self) -> RowBeginView {
        match self {
            RowBegin::IdRequired(id) => RowBeginView::IdRequired(id@),
            RowBegin::Seated(seat) => RowBeginView::Seated(seat.deep_view()),
        }
    }
}

/// The seat that a member takes in a group that gathers, when `assigned` of its members have an
/// assignment.
pub open spec fn seat_begun(
    g: RowGroupView,
    assigned: int,
    request: JoinRequestView,
    id: Seq<char>,
    replaced: Option<Seq<char>>,
    existing: bool,
    expired: bool,
    now: int,
    fresh_rebalance: u128,
) -> RowBeginningView {
    let incoming = groups::offered(request.protocols);
    let was_empty = g.members.dom().len() == 0;
    let was_stable = !g.rebalance_pending && !was_empty && assigned == g.members.dom().len();
    let was_completing = !g.rebalance_pending && !was_empty && !was_stable;
    let name = classic_join::agreed(classic_join::others(g.members, id, replaced), incoming)->0;
    let previous = classic_join::predecessor(as_group(g), id, replaced, existing);
    let protocol_changed = changes_protocol(g.protocol_name, name);
    let unchanged = previous is Some && previous->0.protocols == incoming && !protocol_changed;
    let renamed = leader_renamed(g.leader, id, replaced);
    let leader = match renamed {
        Some(current) => current,
        None => id,
    };
    let no_rebalance = !expired && ((replaced is Some && was_stable && !protocol_changed) || (replaced is None && unchanged
        && was_completing) || (replaced is None && unchanged && was_stable && renamed != Some(id)));
    let active = if g.rebalance_pending {
        g.rebalance_id
    } else if no_rebalance {
        None
    } else {
        Some(fresh_rebalance)
    };
    let carried = if active is None && previous is Some {
        previous->0.joined_rebalance_id
    } else {
        active
    };
    RowBeginningView {
        member: classic_join::newcomer(request, id, name, request.rebalance_timeout_ms, now, carried),
        replaced,
        protocol_name: name,
        leader,
        course: if no_rebalance {
            RowCourseView::Stay {
                told_leader: if leader_replaced(g.leader, replaced) && request.api_version < 9 {
                    replaced->0
                } else {
                    leader
                },
                skip_assignment: request.api_version >= 9 && replaced is Some && leader == id,
            }
        } else if g.rebalance_pending {
            RowCourseView::Extend
        } else {
            RowCourseView::Start { rebalance_id: fresh_rebalance, initial: was_empty }
        },
    }
}

/// What a request to join a group that gathers leads to, or why it is refused.
pub open spec fn row_begun(
    g: RowGroupView,
    assigned: int,
    pending: Map<(Seq<char>, Seq<char>), int>,
    request: JoinRequestView,
    expired: bool,
    now: int,
    fresh: Seq<char>,
    fresh_rebalance: u128,
) -> Result<RowBeginView, ControlErrorView> {
    let requested = request.requested_member_id;
    let existing = requested.len() > 0 && g.members.contains_key(requested);
    let is_full = g.members.dom().len() >= request.max_size;
    match request_verdict(request) {
        Err(refusal) => Err(refusal),
        Ok(_) => match limits_verdict(request) {
            Err(refusal) => Err(refusal),
            Ok(_) => if !compatible(g, request) {
                Err(ControlErrorView::InconsistentGroupProtocol(request.group_id))
            } else if request.group_instance_id is None && requested.len() == 0 && request.api_version >= 4 {
                if is_full {
                    Err(ControlErrorView::GroupMaxSizeReached(request.group_id))
                } else {
                    Ok(RowBeginView::IdRequired(classic_join::made_member_id(request.client_id, fresh)))
                }
            } else {
                match classic_join::resolved(Some(as_group(g)), pending, request, fresh) {
                    Err(refusal) => Err(refusal),
                    Ok((id, replaced)) => if !existing && replaced is None && is_full {
                        Err(ControlErrorView::GroupMaxSizeReached(request.group_id))
                    } else {
                        Ok(
                            RowBeginView::Seated(
                                seat_begun(g, assigned, request, id, replaced, existing, expired, now, fresh_rebalance),
                            ),
                        )
                    },
                }
            },
        },
    }
}

/// Decides what a request to join a group that gathers leads to.
pub fn begin_rows(
    group: &RowGroup,
    assigned: usize,
    pending: &SortedMap<(String, String), Timestamp>,
    request: &JoinRequest,
    expired: bool,
    now: Timestamp,
    fresh: &str,
    fresh_rebalance: u128,
) -> (r: Result<RowBegin, ControlError>)
    ensures
        error::outcome(r) == row_begun(
            group.deep_view(),
            assigned as int,
            pending.deep_view(),
            request.deep_view(),
            expired,
            now.deep_view(),
            fresh@,
            fresh_rebalance,
        ),
{
    let ghost g = group.deep_view();
    validate_join(request)?;
    if request.rebalance_timeout_ms <= 0 || request.initial_rebalance_delay_ms < 0 || request.max_size <= 0 {
        return Err(
            ControlError::InvalidRequest(
                "rebalance timeout and maximum size must be positive and initial delay non-negative".to_owned(),
            ),
        );
    }
    validate_protocols(group, request)?;
    let is_full = group.members.len() >= request.max_size as usize;
    if request.group_instance_id.is_none() && request.requested_member_id.as_str().is_empty() && request.api_version >= 4 {
        if is_full {
            return Err(ControlError::GroupMaxSizeReached(request.group_id.clone()));
        }
        return Ok(RowBegin::IdRequired(classic_join::make_member_id(request.client_id.as_str(), fresh)));
    }
    let mut rest = group.to_group();
    let (id, replaced) = resolve_member_id(Some(&rest), pending, request, fresh)?;
    let existing = !request.requested_member_id.as_str().is_empty() && group.members.contains_key(&request.requested_member_id);
    if !existing && replaced.is_none() && is_full {
        return Err(ControlError::GroupMaxSizeReached(request.group_id.clone()));
    }
    let count: usize = group.members.len();
    let was_empty = count == 0;
    let was_stable = !group.rebalance_pending && !was_empty && assigned == count;
    let was_completing = !group.rebalance_pending && !was_empty && !was_stable;
    let incoming = groups::protocols(request.protocols.as_slice());
    assert(sorted_map::models(request.protocols@) =~= request.protocols.deep_view());
    let (name, previous) = clear_seats(&mut rest, &id, &replaced, existing, &incoming);
    let protocol_changed = is_protocol_changed(&group.protocol_name, &name);
    let unchanged = match &previous {
        Some(member) => same_offers(&member.protocols, &incoming) && !protocol_changed,
        None => false,
    };
    let (renamed, took_over_leader) = rename_leader(&group.leader, &id, &replaced);
    let leads = match &renamed {
        Some(current) => same_text(current.as_str(), id.as_str()),
        None => false,
    };
    let no_rebalance = !expired && ((replaced.is_some() && was_stable && !protocol_changed) || (replaced.is_none() && unchanged
        && was_completing) || (replaced.is_none() && unchanged && was_stable && !leads));
    let active: Option<u128> = if group.rebalance_pending {
        group.rebalance_id
    } else if no_rebalance {
        None
    } else {
        Some(fresh_rebalance)
    };
    let carried: Option<u128> = match (active, &previous) {
        (None, Some(member)) => member.joined_rebalance_id,
        _ => active,
    };
    let leader = match renamed {
        Some(current) => current,
        None => id.clone(),
    };
    let course = if no_rebalance {
        RowCourse::Stay {
            told_leader: if took_over_leader && request.api_version < 9 {
                text_of(&group.leader)
            } else {
                leader.clone()
            },
            skip_assignment: request.api_version >= 9 && replaced.is_some() && same_text(leader.as_str(), id.as_str()),
        }
    } else if group.rebalance_pending {
        RowCourse::Extend
    } else {
        RowCourse::Start { rebalance_id: fresh_rebalance, initial: was_empty }
    };
    let member = make_member(request, &id, incoming, &name, request.rebalance_timeout_ms, now, carried);
    Ok(RowBegin::Seated(RowBeginning { member, replaced, protocol_name: name, leader, course }))
}

/// The end of a rebalance: the members whose rows go, and what the group's row says from then on.
#[derive(Debug, Clone, PartialEq, Eq)]
pub struct RowFinish {
    pub gone: Vec<String>,
    pub leader: String,
    pub protocol_name: String,
}

/// The model of [`RowFinish`].
pub struct RowFinishView {
    pub gone: Seq<Seq<char>>,
    pub leader: Seq<char>,
    pub protocol_name: Seq<char>,
}

impl DeepView for RowFinish {
    type V = RowFinishView;

    open spec fn deep_view(&self) -> RowFinishView {
        RowFinishView {
            gone: self.gone.deep_view(),
            leader: self.leader@,
            protocol_name: self.protocol_name@,
        }
    }
}

/// The members that are left when a rebalance ends: where its time has run out, those that have
/// joined it or have an instance id.
pub open spec fn still_there(g: RowGroupView, timed_out: bool) -> Map<Seq<char>, GroupMemberView> {
    if timed_out {
        sorted_map::filtered(g.members, |id: Seq<char>, member: GroupMemberView| !classic_barrier::left_behind(as_group(g), member))
    } else {
        g.members
    }
}

/// Whether a rebalance has ended, and how: nothing is returned while it goes on.
pub open spec fn row_finished(g: RowGroupView, group_id: Seq<char>, timed_out: bool, initial_elapsed: bool) -> Result<
    Option<RowFinishView>,
    ControlErrorView,
> {
    if !g.rebalance_pending || !(timed_out || (classic_barrier::all_joined(as_group(g)) && initial_elapsed)) {
        Ok(None)
    } else {
        let rest = still_there(g, timed_out);
        let joined = sorted_map::filtered(rest, |id: Seq<char>, member: GroupMemberView| classic_barrier::has_joined(as_group(g), member));
        match groups::selected(classic_groups::member_sets(rest)) {
            None => Err(ControlErrorView::InconsistentGroupProtocol(group_id)),
            Some(name) => Ok(
                Some(
                    RowFinishView {
                        gone: classic_groups::ordered(g.members.dom().difference(rest.dom())),
                        leader: leader_among(joined.dom(), g.leader),
                        protocol_name: name,
                    },
                ),
            ),
        }
    }
}

/// Decides whether a rebalance has ended, given what the database's clock says of its deadlines.
pub fn finish_rows(group: &RowGroup, group_id: &str, timed_out: bool, initial_elapsed: bool) -> (r: Result<Option<RowFinish>, ControlError>)
    ensures
        error::outcome(r) == row_finished(group.deep_view(), group_id@, timed_out, initial_elapsed),
{
    let ghost g = group.deep_view();
    if !group.rebalance_pending {
        return Ok(None);
    }
    let rebalance_id = group.rebalance_id;
    let ghost late = |id: Seq<char>, member: GroupMemberView| !classic_barrier::has_joined(as_group(g), member);
    let is_late = |id: &String, member: &GroupMember| -> (b: bool)
        ensures
            b == late(id.deep_view(), member.deep_view()),
        { !same_rebalance(member.joined_rebalance_id, rebalance_id) };
    let some_late = group.members.any(is_late, Ghost(late));
    let ghost whole = as_group(g);
    assert(some_late == !classic_barrier::all_joined(whole)) by {
        if some_late {
            let id = choose|id: Seq<char>| #[trigger] g.members.contains_key(id) && late(id, g.members[id]);
            assert(whole.members.contains_key(id) && !classic_barrier::has_joined(whole, whole.members[id]));
        } else {
            assert forall|id: Seq<char>| #[trigger] whole.members.contains_key(id)
                implies classic_barrier::has_joined(whole, whole.members[id]) by {
                assert(!(g.members.contains_key(id) && late(id, g.members[id])));
            }
        }
    }
    if !(timed_out || (!some_late && initial_elapsed)) {
        return Ok(None);
    }
    let ghost rest_model = still_there(g, timed_out);
    let ghost stay = |id: Seq<char>, member: GroupMemberView| !classic_barrier::left_behind(as_group(g), member);
    let ghost go = |id: Seq<char>, member: GroupMemberView| timed_out && classic_barrier::left_behind(as_group(g), member);
    let mut rest = group.members.duplicate();
    if timed_out {
        let stays = |id: &String, member: &GroupMember| -> (b: bool)
            ensures
                b == stay(id.deep_view(), member.deep_view()),
            { member.group_instance_id.is_some() || same_rebalance(member.joined_rebalance_id, rebalance_id) };
        rest.retain(stays, Ghost(stay));
    }
    assert(rest.deep_view() =~= rest_model);
    let goes = |id: &String, member: &GroupMember| -> (b: bool)
        ensures
            b == go(id.deep_view(), member.deep_view()),
        { timed_out && member.group_instance_id.is_none() && !same_rebalance(member.joined_rebalance_id, rebalance_id) };
    let gone = group.members.keys_where(goes, Ghost(go));
    proof {
        assert(sorted_map::filtered(g.members, go).dom() =~= g.members.dom().difference(rest_model.dom()));
        sorted_map::sorted_keys_are::<String>(gone.deep_view(), g.members.dom().difference(rest_model.dom()));
    }
    let mut joined = rest.duplicate();
    let ghost here = |id: Seq<char>, member: GroupMemberView| classic_barrier::has_joined(as_group(g), member);
    let is_here = |id: &String, member: &GroupMember| -> (b: bool)
        ensures
            b == here(id.deep_view(), member.deep_view()),
        { same_rebalance(member.joined_rebalance_id, rebalance_id) };
    joined.retain(is_here, Ghost(here));
    let leader = keep_leader(&joined, &group.leader);
    let name = {
        let sets = protocol_sets(&rest);
        groups::select_protocol(sets.as_slice())
    };
    match name {
        None => Err(ControlError::InconsistentGroupProtocol(group_id.to_owned())),
        Some(protocol_name) => Ok(Some(RowFinish { gone, leader, protocol_name })),
    }
}

/// A group after members have gone: its generation and, where members are left, the protocol and the
/// leader.
#[derive(Debug, Clone, PartialEq, Eq)]
pub struct RowRemoval {
    pub generation_id: i32,
    pub agreed: Option<(String, String)>,
}

/// The model of [`RowRemoval`].
pub struct RowRemovalView {
    pub generation_id: i32,
    pub agreed: Option<(Seq<char>, Seq<char>)>,
}

impl DeepView for RowRemoval {
    type V = RowRemovalView;

    open spec fn deep_view(&self) -> RowRemovalView {
        RowRemovalView {
            generation_id: self.generation_id,
            agreed: self.agreed.deep_view(),
        }
    }
}

/// A group after members have gone: in its next generation, without protocol and leader where no
/// member is left.
pub open spec fn row_removed(members: Map<Seq<char>, GroupMemberView>, generation_id: i32, leader: Option<Seq<char>>) -> RowRemovalView {
    RowRemovalView {
        generation_id: (generation_id + 1) as i32,
        agreed: if members == Map::<Seq<char>, GroupMemberView>::empty() {
            None
        } else {
            Some((groups::selected(classic_groups::member_sets(members))->0, leader_among(members.dom(), leader)))
        },
    }
}

/// Decides how a group goes on after members have gone. The members that are left have a protocol in
/// common.
pub fn remove_rows(members: &SortedMap<String, GroupMember>, generation_id: i32, leader: &Option<String>) -> (r: RowRemoval)
    requires
        generation_id < i32::MAX,
        members.deep_view() == Map::<Seq<char>, GroupMemberView>::empty() || groups::selected(
            classic_groups::member_sets(members.deep_view()),
        ) is Some,
    ensures
        r.deep_view() == row_removed(members.deep_view(), generation_id, leader.deep_view()),
{
    if members.is_empty() {
        assert(members.deep_view() =~= Map::empty());
        return RowRemoval { generation_id: generation_id + 1, agreed: None };
    }
    let name = {
        let sets = protocol_sets(members);
        groups::select_protocol(sets.as_slice())
    };
    let next = keep_leader(members, leader);
    RowRemoval { generation_id: generation_id + 1, agreed: Some((name.unwrap(), next)) }
}

/// Checks that a group is not gathering and that a member speaks of its generation.
pub fn check_generation(group_id: &str, rebalance_pending: bool, expected: i32, actual: i32) -> (r: Result<(), ControlError>)
    ensures
        error::outcome(r) == (if rebalance_pending {
            Err(ControlErrorView::RebalanceInProgress(group_id@))
        } else if expected != actual {
            Err(ControlErrorView::IllegalGeneration { group: group_id@, expected, actual })
        } else {
            Ok::<(), ControlErrorView>(())
        }),
{
    if rebalance_pending {
        return Err(ControlError::RebalanceInProgress(group_id.to_owned()));
    }
    if expected != actual {
        return Err(ControlError::IllegalGeneration { group: group_id.to_owned(), expected, actual });
    }
    Ok(())
}

/// The members that identities name, in order.
pub open spec fn leaving(members: Map<Seq<char>, GroupMemberView>, identities: Seq<GroupMemberIdentityView>) -> Set<Seq<char>> {
    Set::new(|id: Seq<char>| classic_members::leaves(members, identities, id))
}

/// Finds the members whose rows go when these identities leave, and what each identity is told.
pub fn leave_rows(group: &RowGroup, identities: &[GroupMemberIdentity]) -> (r: (Vec<LeaveGroupMemberResult>, Vec<String>))
    ensures
        r.0.deep_view() == classic_members::farewells(group.deep_view().members, sorted_map::models(identities@)),
        r.1.deep_view() == classic_groups::ordered(leaving(group.deep_view().members, sorted_map::models(identities@))),
{
    let ghost m = group.deep_view().members;
    let ghost all = sorted_map::models(identities@);
    let whole = group.to_group();
    let mut gone: SortedMap<String, ()> = SortedMap::new();
    let mut results: Vec<LeaveGroupMemberResult> = Vec::new();
    let mut i: usize = 0;
    while i < identities.len()
        invariant
            i <= identities@.len(),
            all == sorted_map::models(identities@),
            m == whole.deep_view().members,
            results@.len() == i,
            forall|j: int| 0 <= j < i ==> (#[trigger] results@[j]).deep_view() == classic_members::farewells(m, all)[j],
            forall|id: Seq<char>| #[trigger] gone.deep_view().contains_key(id) <==> classic_members::leaves(m, all.take(i as int), id),
        decreases identities@.len() - i,
    {
        let ghost before = gone.deep_view();
        let ghost shorter = all.take(i as int);
        let ghost longer = all.take(i + 1);
        proof {
            assert(all[i as int] == identities@[i as int].deep_view());
            sorted_map::prefix_grows(all, i as int);
        }
        let error = match find_leaver(&whole, &identities[i]) {
            Ok(id) => {
                gone.insert(id, ());
                None
            },
            Err(error) => Some(error),
        };
        results.push(LeaveGroupMemberResult { identity: identities[i].duplicate(), error });
        proof {
            assert forall|id: Seq<char>| #[trigger] gone.deep_view().contains_key(id) <==> classic_members::leaves(m, longer, id) by {
                if before.contains_key(id) {
                    let j = choose|j: int|
                        0 <= j < shorter.len() && classic_members::leaver(m, #[trigger] shorter[j]) == Ok::<Seq<char>, LeaveGroupMemberError>(id);
                    assert(longer[j] == shorter[j]);
                }
                if classic_members::leaves(m, longer, id) {
                    let j = choose|j: int|
                        0 <= j < longer.len() && classic_members::leaver(m, #[trigger] longer[j]) == Ok::<Seq<char>, LeaveGroupMemberError>(id);
                    if j < i {
                        assert(longer[j] == shorter[j]);
                        assert(before.contains_key(id));
                    }
                }
                assert(longer[i as int] == all[i as int]);
            }
        }
        i = i + 1;
    }
    assert(results.deep_view() =~= classic_members::farewells(m, all));
    assert(all.take(i as int) =~= all);
    assert(gone.deep_view().dom() =~= leaving(m, all));
    let ids = gone.keys();
    proof {
        sorted_map::sorted_keys_are::<String>(ids.deep_view(), leaving(m, all));
    }
    (results, ids)
}

/// Taking over a seat keeps the generation, and the leadership goes with the seat.
pub proof fn taken_seats_keep_the_generation(
    g: RowGroupView,
    pending: Map<(Seq<char>, Seq<char>), int>,
    request: JoinRequestView,
    now: int,
    fresh: Seq<char>,
)
    requires
        row_joined(g, pending, request, false, now, fresh) matches Ok(RowJoinView::Seated(seat)) && seat.replaced is Some && !seat.rebalance,
    ensures
        ({
            let seat = (row_joined(g, pending, request, false, now, fresh)->Ok_0)->Seated_0;
            &&& seat.generation_id == g.generation_id
            &&& seat.replaced == g.leader ==> seat.leader == seat.member.member_id
        }),
{
}

/// A rebalance that ends leaves a leader that has joined it, whenever a member has.
pub proof fn leaders_have_joined(g: RowGroupView, group_id: Seq<char>, timed_out: bool, initial_elapsed: bool, id: Seq<char>)
    requires
        g.members.dom().finite(),
        row_finished(g, group_id, timed_out, initial_elapsed) matches Ok(Some(_)),
        g.members.contains_key(id),
        classic_barrier::has_joined(as_group(g), g.members[id]),
    ensures
        ({
            let finish = (row_finished(g, group_id, timed_out, initial_elapsed)->Ok_0)->0;
            g.members.contains_key(finish.leader) && classic_barrier::has_joined(as_group(g), g.members[finish.leader]) && !finish.gone.contains(
                finish.leader,
            )
        }),
{
    let rest = still_there(g, timed_out);
    let joined = sorted_map::filtered(rest, |id: Seq<char>, member: GroupMemberView| classic_barrier::has_joined(as_group(g), member));
    let gone = g.members.dom().difference(rest.dom());
    vstd::set_lib::lemma_set_subset_finite(g.members.dom(), joined.dom());
    vstd::set_lib::lemma_set_subset_finite(g.members.dom(), gone);
    sorted_map::finite_sets_are_listed::<String>(joined.dom());
    sorted_map::finite_sets_are_listed::<String>(gone);
    let ids = classic_groups::ordered(joined.dom());
    assert(joined.contains_key(id));
    assert(ids.to_set().contains(id));
    assert(ids.to_set().contains(ids[0]));
    let finish = (row_finished(g, group_id, timed_out, initial_elapsed)->Ok_0)->0;
    if finish.gone.contains(finish.leader) {
        assert(finish.gone.to_set().contains(finish.leader));
    }
}

} // verus!
