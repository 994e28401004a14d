//! Classic groups: what members offer, and which protocol they agree on.

use crate::sorted_map;
use crate::sorted_map::Duplicate;
use crate::text;
use crate::text::{compare_text, same_text, Relation};
use crate::time::Timestamp;
use vstd::prelude::*;

verus! {

/// Why a member could not leave.
#[derive(Debug, Clone, Copy, PartialEq, Eq, Structural)]
pub enum LeaveGroupMemberError {
    UnknownMemberId,
    FencedInstanceId,
}

impl DeepView for LeaveGroupMemberError {
    type V = LeaveGroupMemberError;

    open spec fn deep_view(&self) -> LeaveGroupMemberError {
        *self
    }
}

impl Duplicate for LeaveGroupMemberError {
    fn duplicate(&self) -> (r: Self) {
        *self
    }
}

/// A protocol that a member offers, with the member's data for it.
#[derive(Debug, Clone, PartialEq, Eq)]
pub struct GroupProtocol {
    pub name: String,
    pub metadata: Vec<u8>,
}

/// The model of [`GroupProtocol`].
pub struct GroupProtocolView {
    pub name: Seq<char>,
    pub metadata: Seq<u8>,
}

impl DeepView for GroupProtocol {
    type V = GroupProtocolView;

    open spec fn deep_view(&self) -> GroupProtocolView {
        GroupProtocolView {
            name: self.name@,
            metadata: self.metadata.deep_view(),
        }
    }
}

impl Duplicate for GroupProtocol {
    fn duplicate(&self) -> (r: Self) {
        GroupProtocol {
            name: self.name.clone(),
            metadata: self.metadata.duplicate(),
        }
    }
}

/// A member of a classic group.
#[derive(Debug, Clone, PartialEq, Eq)]
pub struct GroupMember {
    pub member_id: String,
    pub group_instance_id: Option<String>,
    pub protocols: Vec<GroupProtocol>,
    pub protocol_name: String,
    pub metadata: Vec<u8>,
    pub subscribed_topics: Vec<String>,
    pub client_id: String,
    pub client_host: String,
    pub rebalance_timeout_ms: i32,
    pub session_timeout_ms: i32,
    pub last_heartbeat: Timestamp,
    pub joined_rebalance_id: Option<u128>,
}

/// The model of [`GroupMember`].
pub struct GroupMemberView {
    pub member_id: Seq<char>,
    pub group_instance_id: Option<Seq<char>>,
    pub protocols: Seq<GroupProtocolView>,
    pub protocol_name: Seq<char>,
    pub metadata: Seq<u8>,
    pub subscribed_topics: Seq<Seq<char>>,
    pub client_id: Seq<char>,
    pub client_host: Seq<char>,
    pub rebalance_timeout_ms: i32,
    pub session_timeout_ms: i32,
    pub last_heartbeat: int,
    pub joined_rebalance_id: Option<u128>,
}

impl DeepView for GroupMember {
    type V = GroupMemberView;

    open spec fn deep_view(&self) -> GroupMemberView {
        GroupMemberView {
            member_id: self.member_id@,
            group_instance_id: self.group_instance_id.deep_view(),
            protocols: self.protocols.deep_view(),
            protocol_name: self.protocol_name@,
            metadata: self.metadata.deep_view(),
            subscribed_topics: self.subscribed_topics.deep_view(),
            client_id: self.client_id@,
            client_host: self.client_host@,
            rebalance_timeout_ms: self.rebalance_timeout_ms,
            session_timeout_ms: self.session_timeout_ms,
            last_heartbeat: self.last_heartbeat.deep_view(),
            joined_rebalance_id: self.joined_rebalance_id.deep_view(),
        }
    }
}

impl Duplicate for GroupMember {
    fn duplicate(&self) -> (r: Self) {
        GroupMember {
            member_id: self.member_id.clone(),
            group_instance_id: self.group_instance_id.duplicate(),
            protocols: self.protocols.duplicate(),
            protocol_name: self.protocol_name.clone(),
            metadata: self.metadata.duplicate(),
            subscribed_topics: self.subscribed_topics.duplicate(),
            client_id: self.client_id.clone(),
            client_host: self.client_host.clone(),
            rebalance_timeout_ms: self.rebalance_timeout_ms,
            session_timeout_ms: self.session_timeout_ms,
            last_heartbeat: self.last_heartbeat,
            joined_rebalance_id: self.joined_rebalance_id.duplicate(),
        }
    }
}

/// What a member learns when it joins.
#[derive(Debug, Clone, PartialEq, Eq)]
pub struct JoinGroupResult {
    pub generation_id: i32,
    pub protocol_type: String,
    pub protocol_name: String,
    pub leader: String,
    pub member_id: String,
    pub members: Vec<GroupMember>,
    pub skip_assignment: bool,
    pub pending_rebalance: Option<u128>,
    pub retry_after_ms: i64,
}

/// The model of [`JoinGroupResult`].
pub struct JoinGroupResultView {
    pub generation_id: i32,
    pub protocol_type: Seq<char>,
    pub protocol_name: Seq<char>,
    pub leader: Seq<char>,
    pub member_id: Seq<char>,
    pub members: Seq<GroupMemberView>,
    pub skip_assignment: bool,
    pub pending_rebalance: Option<u128>,
    pub retry_after_ms: i64,
}

impl DeepView for JoinGroupResult {
    type V = JoinGroupResultView;

    open spec fn deep_view(&self) -> JoinGroupResultView {
        JoinGroupResultView {
            generation_id: self.generation_id,
            protocol_type: self.protocol_type@,
            protocol_name: self.protocol_name@,
            leader: self.leader@,
            member_id: self.member_id@,
            members: self.members.deep_view(),
            skip_assignment: self.skip_assignment,
            pending_rebalance: self.pending_rebalance.deep_view(),
            retry_after_ms: self.retry_after_ms,
        }
    }
}

impl Duplicate for JoinGroupResult {
    fn duplicate(&self) -> (r: Self) {
        JoinGroupResult {
            generation_id: self.generation_id,
            protocol_type: self.protocol_type.clone(),
            protocol_name: self.protocol_name.clone(),
            leader: self.leader.clone(),
            member_id: self.member_id.clone(),
            members: self.members.duplicate(),
            skip_assignment: self.skip_assignment,
            pending_rebalance: self.pending_rebalance.duplicate(),
            retry_after_ms: self.retry_after_ms,
        }
    }
}

/// The bytes that the leader assigns to a member.
#[derive(Debug, Clone, PartialEq, Eq)]
pub struct GroupAssignment {
    pub member_id: String,
    pub assignment: Vec<u8>,
}

/// The model of [`GroupAssignment`].
pub struct GroupAssignmentView {
    pub member_id: Seq<char>,
    pub assignment: Seq<u8>,
}

impl DeepView for GroupAssignment {
    type V = GroupAssignmentView;

    open spec fn deep_view(&self) -> GroupAssignmentView {
        GroupAssignmentView {
            member_id: self.member_id@,
            assignment: self.assignment.deep_view(),
        }
    }
}

impl Duplicate for GroupAssignment {
    fn duplicate(&self) -> (r: Self) {
        GroupAssignment {
            member_id: self.member_id.clone(),
            assignment: self.assignment.duplicate(),
        }
    }
}

/// How a leaving member is named.
#[derive(Debug, Clone, PartialEq, Eq)]
pub struct GroupMemberIdentity {
    pub member_id: String,
    pub group_instance_id: Option<String>,
}

/// The model of [`GroupMemberIdentity`].
pub struct GroupMemberIdentityView {
    pub member_id: Seq<char>,
    pub group_instance_id: Option<Seq<char>>,
}

impl DeepView for GroupMemberIdentity {
    type V = GroupMemberIdentityView;

    open spec fn deep_view(&self) -> GroupMemberIdentityView {
        GroupMemberIdentityView {
            member_id: self.member_id@,
            group_instance_id: self.group_instance_id.deep_view(),
        }
    }
}

impl Duplicate for GroupMemberIdentity {
    fn duplicate(&self) -> (r: Self) {
        GroupMemberIdentity {
            member_id: self.member_id.clone(),
            group_instance_id: self.group_instance_id.duplicate(),
        }
    }
}

/// What became of a leaving member.
#[derive(Debug, Clone, PartialEq, Eq)]
pub struct LeaveGroupMemberResult {
    pub identity: GroupMemberIdentity,
    pub error: Option<LeaveGroupMemberError>,
}

/// The model of [`LeaveGroupMemberResult`].
pub struct LeaveGroupMemberResultView {
    pub identity: GroupMemberIdentityView,
    pub error: Option<LeaveGroupMemberError>,
}

impl DeepView for LeaveGroupMemberResult {
    type V = LeaveGroupMemberResultView;

    open spec fn deep_view(&self) -> LeaveGroupMemberResultView {
        LeaveGroupMemberResultView {
            identity: self.identity.deep_view(),
            error: self.error.deep_view(),
        }
    }
}

impl Duplicate for LeaveGroupMemberResult {
    fn duplicate(&self) -> (r: Self) {
        LeaveGroupMemberResult {
            identity: self.identity.duplicate(),
            error: self.error.duplicate(),
        }
    }
}

/// A group in a listing.
#[derive(Debug, Clone, PartialEq, Eq)]
pub struct GroupSummary {
    pub group_id: String,
    pub protocol_type: String,
    pub state: String,
    pub group_type: String,
}

/// The model of [`GroupSummary`].
pub struct GroupSummaryView {
    pub group_id: Seq<char>,
    pub protocol_type: Seq<char>,
    pub state: Seq<char>,
    pub group_type: Seq<char>,
}

impl DeepView for GroupSummary {
    type V = GroupSummaryView;

    open spec fn deep_view(&self) -> GroupSummaryView {
        GroupSummaryView {
            group_id: self.group_id@,
            protocol_type: self.protocol_type@,
            state: self.state@,
            group_type: self.group_type@,
        }
    }
}

impl Duplicate for GroupSummary {
    fn duplicate(&self) -> (r: Self) {
        GroupSummary {
            group_id: self.group_id.clone(),
            protocol_type: self.protocol_type.clone(),
            state: self.state.clone(),
            group_type: self.group_type.clone(),
        }
    }
}

/// A classic group in full.
#[derive(Debug, Clone, PartialEq, Eq)]
pub struct ClassicGroupDescription {
    pub group_id: String,
    pub state: String,
    pub generation_id: i32,
    pub protocol_type: String,
    pub protocol_data: String,
    pub members: Vec<ClassicGroupMemberDescription>,
}

/// The model of [`ClassicGroupDescription`].
pub struct ClassicGroupDescriptionView {
    pub group_id: Seq<char>,
    pub state: Seq<char>,
    pub generation_id: i32,
    pub protocol_type: Seq<char>,
    pub protocol_data: Seq<char>,
    pub members: Seq<ClassicGroupMemberDescriptionView>,
}

impl DeepView for ClassicGroupDescription {
    type V = ClassicGroupDescriptionView;

    open spec fn deep_view(&self) -> ClassicGroupDescriptionView {
        ClassicGroupDescriptionView {
            group_id: self.group_id@,
            state: self.state@,
            generation_id: self.generation_id,
            protocol_type: self.protocol_type@,
            protocol_data: self.protocol_data@,
            members: self.members.deep_view(),
        }
    }
}

impl Duplicate for ClassicGroupDescription {
    fn duplicate(&self) -> (r: Self) {
        ClassicGroupDescription {
            group_id: self.group_id.clone(),
            state: self.state.clone(),
            generation_id: self.generation_id,
            protocol_type: self.protocol_type.clone(),
            protocol_data: self.protocol_data.clone(),
            members: self.members.duplicate(),
        }
    }
}

/// A member of a classic group in full.
#[derive(Debug, Clone, PartialEq, Eq)]
pub struct ClassicGroupMemberDescription {
    pub member_id: String,
    pub group_instance_id: Option<String>,
    pub client_id: String,
    pub client_host: String,
    pub member_metadata: Vec<u8>,
    pub member_assignment: Vec<u8>,
}

/// The model of [`ClassicGroupMemberDescription`].
pub struct ClassicGroupMemberDescriptionView {
    pub member_id: Seq<char>,
    pub group_instance_id: Option<Seq<char>>,
    pub client_id: Seq<char>,
    pub client_host: Seq<char>,
    pub member_metadata: Seq<u8>,
    pub member_assignment: Seq<u8>,
}

impl DeepView for ClassicGroupMemberDescription {
    type V = ClassicGroupMemberDescriptionView;

    open spec fn deep_view(&self) -> ClassicGroupMemberDescriptionView {
        ClassicGroupMemberDescriptionView {
            member_id: self.member_id@,
            group_instance_id: self.group_instance_id.deep_view(),
            client_id: self.client_id@,
            client_host: self.client_host@,
            member_metadata: self.member_metadata.deep_view(),
            member_assignment: self.member_assignment.deep_view(),
        }
    }
}

impl Duplicate for ClassicGroupMemberDescription {
    fn duplicate(&self) -> (r: Self) {
        ClassicGroupMemberDescription {
            member_id: self.member_id.clone(),
            group_instance_id: self.group_instance_id.duplicate(),
            client_id: self.client_id.clone(),
            client_host: self.client_host.clone(),
            member_metadata: self.member_metadata.duplicate(),
            member_assignment: self.member_assignment.duplicate(),
        }
    }
}

/// The name of a classic group's state.
pub open spec fn classic_state_name(members: nat, assignments: nat, preparing: bool) -> Seq<char> {
    if preparing {
        "PreparingRebalance"@
    } else if members == 0 {
        "Empty"@
    } else if members == assignments {
        "Stable"@
    } else {
        "CompletingRebalance"@
    }
}

/// Names the state of a classic group.
pub fn classic_group_state(member_count: usize, assignment_count: usize, preparing_rebalance: bool) -> (r: &'static str)
    ensures
        r@ == classic_state_name(member_count as nat, assignment_count as nat, preparing_rebalance),
{
    if preparing_rebalance {
        "PreparingRebalance"
    } else if member_count == 0 {
        "Empty"
    } else if member_count == assignment_count {
        "Stable"
    } else {
        "CompletingRebalance"
    }
}

/// The protocols that name and data pairs stand for.
pub open spec fn offered(pairs: Seq<(Seq<char>, Seq<u8>)>) -> Seq<GroupProtocolView> {
    Seq::new(pairs.len(), |i: int| GroupProtocolView { name: pairs[i].0, metadata: pairs[i].1 })
}

/// Turns name and data pairs into offered protocols.
pub fn protocols(pairs: &[(String, Vec<u8>)]) -> (r: Vec<GroupProtocol>)
    ensures
        r.deep_view() == offered(sorted_map::models(pairs@)),
{
    let mut r: Vec<GroupProtocol> = Vec::new();
    let mut i: usize = 0;
    while i < pairs.len()
        invariant
            i <= pairs@.len(),
            r@.len() == i,
            forall|j: int| 0 <= j < i ==> (#[trigger] r@[j]).deep_view() == offered(sorted_map::models(pairs@))[j],
        decreases pairs@.len() - i,
    {
        r.push(GroupProtocol { name: pairs[i].0.clone(), metadata: pairs[i].1.duplicate() });
        i = i + 1;
    }
    assert(r.deep_view() =~= offered(sorted_map::models(pairs@)));
    r
}

/// Whether a member offers a protocol of that name.
pub open spec fn offers(set: Seq<GroupProtocolView>, name: Seq<char>) -> bool {
    exists|j: int| 0 <= j < set.len() && (#[trigger] set[j]).name == name
}

/// Whether every member offers a protocol of that name.
pub open spec fn offered_by_all(sets: Seq<Seq<GroupProtocolView>>, name: Seq<char>) -> bool {
    forall|i: int| 0 <= i < sets.len() ==> offers(#[trigger] sets[i], name)
}

/// The first protocol in a member's list that every member offers.
pub open spec fn ballot(sets: Seq<Seq<GroupProtocolView>>, set: Seq<GroupProtocolView>) -> Option<Seq<char>>
    decreases set.len(),
{
    if set.len() == 0 {
        None
    } else if offered_by_all(sets, set[0].name) {
        Some(set[0].name)
    } else {
        ballot(sets, set.drop_first())
    }
}

/// How many of the first `n` members vote for a protocol.
pub open spec fn votes(sets: Seq<Seq<GroupProtocolView>>, n: nat, name: Seq<char>) -> nat
    decreases n,
{
    if n == 0 {
        0
    } else {
        votes(sets, (n - 1) as nat, name) + if ballot(sets, sets[n - 1]) == Some(name) {
            1nat
        } else {
            0
        }
    }
}

/// Whether `name` has more votes than `other`, or as many and the smaller name.
pub open spec fn beats(sets: Seq<Seq<GroupProtocolView>>, name: Seq<char>, other: Seq<char>) -> bool {
    let mine = votes(sets, sets.len(), name);
    let theirs = votes(sets, sets.len(), other);
    mine > theirs || (mine == theirs && text::text_before(name, other))
}

/// Whether `name` is offered by every member and beats all others that are.
pub open spec fn wins(sets: Seq<Seq<GroupProtocolView>>, name: Seq<char>) -> bool {
    &&& sets.len() > 0
    &&& offered_by_all(sets, name)
    &&& forall|other: Seq<char>| #[trigger] offered_by_all(sets, other) && other != name ==> beats(sets, name, other)
}

/// The protocol that the members agree on.
pub open spec fn selected(sets: Seq<Seq<GroupProtocolView>>) -> Option<Seq<char>> {
    if exists|name: Seq<char>| wins(sets, name) {
        Some(choose|name: Seq<char>| wins(sets, name))
    } else {
        None
    }
}

/// Only one protocol can win.
pub proof fn winner_is_selected(sets: Seq<Seq<GroupProtocolView>>, name: Seq<char>)
    requires
        wins(sets, name),
    ensures
        selected(sets) == Some(name),
{
    let chosen = choose|name: Seq<char>| wins(sets, name);
    if chosen != name {
        assert(beats(sets, name, chosen));
        assert(beats(sets, chosen, name));
        if text::text_before(name, chosen) && text::text_before(chosen, name) {
            text::text_before_transitive(name, chosen, name);
        }
        text::text_before_irreflexive(name);
    }
}

/// The protocol that the members agree on is offered by every one of them, and they agree on one
/// whenever there is a protocol that all of them offer.
pub proof fn selection_is_offered_by_all(sets: Seq<Seq<GroupProtocolView>>)
    ensures
        selected(sets) is Some <==> sets.len() > 0 && exists|name: Seq<char>| offered_by_all(sets, name),
        selected(sets) is Some ==> offered_by_all(sets, selected(sets)->0),
{
    if sets.len() > 0 && exists|name: Seq<char>| offered_by_all(sets, name) {
        let name = choose|name: Seq<char>| offered_by_all(sets, name);
        let best = best_of(sets, sets[0].len());
        assert(offers(sets[0], name));
        let j = choose|j: int| 0 <= j < sets[0].len() && (#[trigger] sets[0][j]).name == name;
        assert(best is Some);
        assert forall|other: Seq<char>| #[trigger] offered_by_all(sets, other) && other != best->0 implies beats(sets, best->0, other) by {
            assert(offers(sets[0], other));
            let k = choose|k: int| 0 <= k < sets[0].len() && (#[trigger] sets[0][k]).name == other;
        }
        assert(wins(sets, best->0));
        winner_is_selected(sets, best->0);
    }
}

/// The best of the first `n` protocols of the first member.
proof fn best_of(sets: Seq<Seq<GroupProtocolView>>, n: nat) -> (best: Option<Seq<char>>)
    requires
        sets.len() > 0,
        n <= sets[0].len(),
    ensures
        best is None ==> forall|j: int| 0 <= j < n ==> !offered_by_all(sets, (#[trigger] sets[0][j]).name),
        best is Some ==> offered_by_all(sets, best->0) && forall|j: int| 0 <= j < n && offered_by_all(sets, (#[trigger] sets[0][j]).name)
            && sets[0][j].name != best->0 ==> beats(sets, best->0, sets[0][j].name),
    decreases n,
{
    if n == 0 {
        None
    } else {
        let best = best_of(sets, (n - 1) as nat);
        let name = sets[0][n - 1].name;
        if !offered_by_all(sets, name) {
            best
        } else if best is None {
            Some(name)
        } else if best->0 == name || beats(sets, best->0, name) {
            best
        } else {
            text::text_before_total(name, best->0);
            assert(beats(sets, name, best->0));
            assert forall|j: int| 0 <= j < n && offered_by_all(sets, (#[trigger] sets[0][j]).name) && sets[0][j].name != name
                implies beats(sets, name, sets[0][j].name) by {
                let other = sets[0][j].name;
                if other != best->0 {
                    beats_transitive(sets, name, best->0, other);
                }
            }
            Some(name)
        }
    }
}

proof fn beats_transitive(sets: Seq<Seq<GroupProtocolView>>, a: Seq<char>, b: Seq<char>, c: Seq<char>)
    requires
        beats(sets, a, b),
        beats(sets, b, c),
    ensures
        beats(sets, a, c),
{
    if text::text_before(a, b) && text::text_before(b, c) {
        text::text_before_transitive(a, b, c);
    }
}

/// The models of the members' lists.
pub open spec fn set_models(sets: Seq<&[GroupProtocol]>) -> Seq<Seq<GroupProtocolView>> {
    Seq::new(sets.len(), |i: int| sorted_map::models(sets[i]@))
}

fn set_offers(set: &[GroupProtocol], name: &str) -> (r: bool)
    ensures
        r == offers(sorted_map::models(set@), name@),
{
    let ghost model = sorted_map::models(set@);
    let mut j: usize = 0;
    while j < set.len()
        invariant
            j <= set@.len(),
            model == sorted_map::models(set@),
            forall|k: int| 0 <= k < j ==> (#[trigger] model[k]).name != name@,
        decreases set@.len() - j,
    {
        assert(model[j as int].name == set@[j as int].name@);
        if same_text(set[j].name.as_str(), name) {
            return true;
        }
        j = j + 1;
    }
    false
}

fn all_offer(sets: &[&[GroupProtocol]], name: &str) -> (r: bool)
    ensures
        r == offered_by_all(set_models(sets@), name@),
{
    let mut i: usize = 0;
    while i < sets.len()
        invariant
            i <= sets@.len(),
            forall|k: int| 0 <= k < i ==> offers(#[trigger] set_models(sets@)[k], name@),
        decreases sets@.len() - i,
    {
        let set = sets[i];
        assert(set_models(sets@)[i as int] == sorted_map::models(set@));
        if !set_offers(set, name) {
            return false;
        }
        i = i + 1;
    }
    true
}

fn votes_for(sets: &[&[GroupProtocol]], set: &[GroupProtocol], name: &str) -> (r: bool)
    ensures
        r == (ballot(set_models(sets@), sorted_map::models(set@)) == Some(name@)),
{
    let ghost model = sorted_map::models(set@);
    let ghost all = set_models(sets@);
    let mut j: usize = 0;
    assert(model.skip(0) =~= model);
    while j < set.len()
        invariant
            j <= set@.len(),
            model == sorted_map::models(set@),
            all == set_models(sets@),
            ballot(all, model) == ballot(all, model.skip(j as int)),
        decreases set@.len() - j,
    {
        assert(model.skip(j as int)[0].name == set@[j as int].name@);
        if all_offer(sets, set[j].name.as_str()) {
            return same_text(set[j].name.as_str(), name);
        }
        assert(model.skip(j as int).drop_first() =~= model.skip(j + 1));
        j = j + 1;
    }
    false
}

fn count_votes(sets: &[&[GroupProtocol]], name: &str) -> (r: usize)
    ensures
        r == votes(set_models(sets@), sets@.len(), name@),
{
    let mut n: usize = 0;
    let mut i: usize = 0;
    while i < sets.len()
        invariant
            i <= sets@.len(),
            n <= i,
            n == votes(set_models(sets@), i as nat, name@),
        decreases sets@.len() - i,
    {
        let set = sets[i];
        assert(set_models(sets@)[i as int] == sorted_map::models(set@));
        if votes_for(sets, set, name) {
            n = n + 1;
        }
        i = i + 1;
    }
    n
}

/// The protocol that the members agree on: of those that every member offers, the one that most
/// members list first; of several such, the one with the smallest name.
pub fn select_protocol(protocol_sets: &[&[GroupProtocol]]) -> (r: Option<String>)
    ensures
        r.deep_view() == selected(set_models(protocol_sets@)),
{
    let ghost all = set_models(protocol_sets@);
    if protocol_sets.len() == 0 {
        return None;
    }
    let first = protocol_sets[0];
    let ghost names = sorted_map::models(first@);
    assert(all[0] == names);
    let mut best: Option<usize> = None;
    let mut best_votes: usize = 0;
    let mut j: usize = 0;
    while j < first.len()
        invariant
            j <= first@.len(),
            protocol_sets@.len() > 0,
            all == set_models(protocol_sets@),
            names == sorted_map::models(first@),
            best is None ==> forall|k: int| 0 <= k < j ==> !offered_by_all(all, (#[trigger] names[k]).name),
            best is Some ==> {
                &&& best->0 < j
                &&& offered_by_all(all, names[best->0 as int].name)
                &&& best_votes == votes(all, all.len(), names[best->0 as int].name)
                &&& forall|k: int|
                    0 <= k < j && offered_by_all(all, (#[trigger] names[k]).name) && names[k].name != names[best->0 as int].name
                        ==> beats(all, names[best->0 as int].name, names[k].name)
            },
        decreases first@.len() - j,
    {
        let name = first[j].name.as_str();
        assert(names[j as int].name == name@);
        if all_offer(protocol_sets, name) {
            let n: usize = count_votes(protocol_sets, name);
            let better = match best {
                None => true,
                Some(b) => {
                    let relation = compare_text(name, first[b].name.as_str());
                    assert(names[b as int].name == first@[b as int].name@);
                    let better = n > best_votes || (n == best_votes && relation == Relation::Before);
                    proof {
                        text::text_before_irreflexive(name@);
                        if relation == Relation::After && text::text_before(name@, names[b as int].name) {
                            text::text_before_transitive(name@, names[b as int].name, name@);
                        }
                        if better {
                            assert forall|k: int| 0 <= k < j + 1 && offered_by_all(all, (#[trigger] names[k]).name)
                                && names[k].name != name@ implies beats(all, name@, names[k].name) by {
                                if names[k].name != names[b as int].name {
                                    beats_transitive(all, name@, names[b as int].name, names[k].name);
                                }
                            }
                        }
                    }
                    better
                },
            };
            if better {
                best = Some(j);
                best_votes = n;
            }
        }
        j = j + 1;
    }
    match best {
        None => {
            proof {
                assert forall|name: Seq<char>| !wins(all, name) by {
                    if wins(all, name) {
                        assert(offers(all[0], name));
                    }
                }
            }
            None
        },
        Some(b) => {
            proof {
                let name = names[b as int].name;
                assert forall|other: Seq<char>| #[trigger] offered_by_all(all, other) && other != name implies beats(all, name, other) by {
                    assert(offers(all[0], other));
                    let k = choose|k: int| 0 <= k < names.len() && (#[trigger] names[k]).name == other;
                }
                assert(wins(all, name));
                winner_is_selected(all, name);
                assert(name == first@[b as int].name@);
            }
            Some(first[b].name.clone())
        },
    }
}

/// The first protocol of that name in a member's list.
pub open spec fn find_offer(set: Seq<GroupProtocolView>, name: Seq<char>) -> Option<GroupProtocolView>
    decreases set.len(),
{
    if set.len() == 0 {
        None
    } else if set[0].name == name {
        Some(set[0])
    } else {
        find_offer(set.drop_first(), name)
    }
}

/// A list holds a protocol of that name exactly when it offers it.
pub proof fn find_offer_finds(set: Seq<GroupProtocolView>, name: Seq<char>)
    ensures
        find_offer(set, name) is Some <==> offers(set, name),
        find_offer(set, name) is Some ==> find_offer(set, name)->0.name == name,
    decreases set.len(),
{
    if set.len() > 0 && set[0].name != name {
        let rest = set.drop_first();
        find_offer_finds(rest, name);
        if offers(rest, name) {
            let j = choose|j: int| 0 <= j < rest.len() && (#[trigger] rest[j]).name == name;
            assert(set[j + 1].name == name);
        }
        if offers(set, name) {
            let j = choose|j: int| 0 <= j < set.len() && (#[trigger] set[j]).name == name;
            assert(rest[j - 1].name == name);
        }
    }
}

/// The data of the first protocol of that name.
pub fn offer_metadata(set: &[GroupProtocol], name: &str) -> (r: Option<Vec<u8>>)
    ensures
        r.deep_view() == match find_offer(sorted_map::models(set@), name@) {
            Some(protocol) => Some(protocol.metadata),
            None => None,
        },
{
    let ghost model = sorted_map::models(set@);
    let mut j: usize = 0;
    assert(model.skip(0) =~= model);
    while j < set.len()
        invariant
            j <= set@.len(),
            model == sorted_map::models(set@),
            find_offer(model, name@) == find_offer(model.skip(j as int), name@),
        decreases set@.len() - j,
    {
        assert(model.skip(j as int)[0] == set@[j as int].deep_view());
        if same_text(set[j].name.as_str(), name) {
            return Some(set[j].metadata.duplicate());
        }
        assert(model.skip(j as int).drop_first() =~= model.skip(j + 1));
        j = j + 1;
    }
    None
}

/// A member after the group has agreed on a protocol.
pub open spec fn with_protocol(member: GroupMemberView, name: Seq<char>) -> GroupMemberView {
    match find_offer(member.protocols, name) {
        Some(protocol) => GroupMemberView { protocol_name: name, metadata: protocol.metadata, ..member },
        None => member,
    }
}

/// Sets a member's protocol and data to the named protocol of its list; leaves the member alone
/// where the list has none.
pub fn select_member_protocol(member: &mut GroupMember, protocol_name: &str)
    ensures
        final(member).deep_view() == with_protocol(old(member).deep_view(), protocol_name@),
{
    assert(sorted_map::models(member.protocols@) =~= member.protocols.deep_view());
    match offer_metadata(member.protocols.as_slice(), protocol_name) {
        Some(metadata) => {
            member.protocol_name = protocol_name.to_owned();
            member.metadata = metadata;
        },
        None => {},
    }
}

} // verus!
