//! Share groups: which partitions their members may read, and the offsets from which they are read.

use crate::error;
use crate::error::{ControlError, ControlErrorView};
use crate::fresh;
use crate::fresh::write_id;
use crate::log_types::{MemoryPartition, MemoryPartitionView};
use crate::partition::{PartitionKey, PartitionKeyView};
use crate::sorted_map;
use crate::sorted_map::{Duplicate, SortedMap};
use crate::store::{
    ShareGroup, ShareGroupView, ShareMember, ShareMemberView, ShareTopicAssignment, ShareTopicAssignmentView, Store, StoreView,
};
use crate::topics;
use vstd::prelude::*;

verus! {

/// From where a share group reads a partition.
#[derive(Debug, Clone, PartialEq, Eq)]
pub struct SharePartitionOffset {
    pub partition: PartitionKey,
    pub topic_id: u128,
    pub start_offset: i64,
    pub leader_epoch: i32,
    pub high_watermark: i64,
    pub delivery_complete_count: i32,
}

/// The model of [`SharePartitionOffset`].
pub struct SharePartitionOffsetView {
    pub partition: PartitionKeyView,
    pub topic_id: u128,
    pub start_offset: i64,
    pub leader_epoch: i32,
    pub high_watermark: i64,
    pub delivery_complete_count: i32,
}

impl DeepView for SharePartitionOffset {
    type V = SharePartitionOffsetView;

    open spec fn deep_view(&self) -> SharePartitionOffsetView {
        SharePartitionOffsetView {
            partition: self.partition.deep_view(),
            topic_id: self.topic_id,
            start_offset: self.start_offset,
            leader_epoch: self.leader_epoch,
            high_watermark: self.high_watermark,
            delivery_complete_count: self.delivery_complete_count,
        }
    }
}

impl Duplicate for SharePartitionOffset {
    fn duplicate(&self) -> (r: Self) {
        SharePartitionOffset {
            partition: self.partition.duplicate(),
            topic_id: self.topic_id,
            start_offset: self.start_offset,
            leader_epoch: self.leader_epoch,
            high_watermark: self.high_watermark,
            delivery_complete_count: self.delivery_complete_count,
        }
    }
}

/// Whether the start of a partition was moved.
#[derive(Debug, Clone, PartialEq, Eq)]
pub struct ShareOffsetUpdateResult {
    pub partition: PartitionKey,
    pub topic_id: Option<u128>,
    pub updated: bool,
}

/// The model of [`ShareOffsetUpdateResult`].
pub struct ShareOffsetUpdateResultView {
    pub partition: PartitionKeyView,
    pub topic_id: Option<u128>,
    pub updated: bool,
}

impl DeepView for ShareOffsetUpdateResult {
    type V = ShareOffsetUpdateResultView;

    open spec fn deep_view(&self) -> ShareOffsetUpdateResultView {
        ShareOffsetUpdateResultView {
            partition: self.partition.deep_view(),
            topic_id: self.topic_id.deep_view(),
            updated: self.updated,
        }
    }
}

impl Duplicate for ShareOffsetUpdateResult {
    fn duplicate(&self) -> (r: Self) {
        ShareOffsetUpdateResult {
            partition: self.partition.duplicate(),
            topic_id: self.topic_id.duplicate(),
            updated: self.updated,
        }
    }
}

/// The partitions that an assignment names.
pub open spec fn named_in(assignment: Seq<ShareTopicAssignmentView>) -> Set<(u128, i32)> {
    Set::new(
        |p: (u128, i32)|
            exists|i: int| 0 <= i < assignment.len() && (#[trigger] assignment[i]).topic_id == p.0 && assignment[i].partitions.contains(p.1),
    )
}

/// The partitions that are assigned to a member of a share group, each by the topic's id.
pub open spec fn member_partitions(s: StoreView, group_id: Seq<char>, member_id: Seq<char>) -> Result<Map<(u128, i32), ()>, ControlErrorView> {
    if !s.share_groups.contains_key(group_id) {
        Err(ControlErrorView::GroupNotFound(group_id))
    } else if !s.share_groups[group_id].members.contains_key(member_id) {
        Err(ControlErrorView::GroupMemberNotFound { group: group_id, member: member_id })
    } else {
        Ok(Map::new(|p: (u128, i32)| named_in(s.share_groups[group_id].members[member_id].assignment).contains(p), |p: (u128, i32)| ()))
    }
}

/// Whether a member of a share group may read a partition.
pub open spec fn assignment_verdict(s: StoreView, group_id: Seq<char>, member_id: Seq<char>, topic_id: u128, partition: i32) -> Result<
    (),
    ControlErrorView,
> {
    match member_partitions(s, group_id, member_id) {
        Err(refusal) => Err(refusal),
        Ok(assigned) => if assigned.contains_key((topic_id, partition)) {
            Ok(())
        } else {
            Err(ControlErrorView::InvalidRequest("share partition is not assigned to the member"@))
        },
    }
}

/// The first offset that the log of a partition keeps, and the one behind its last.
pub open spec fn log_bounds(s: StoreView, topic_id: u128, partition: i32) -> Result<(i64, i64), ControlErrorView> {
    match topics::topic_under(s.log, topic_id) {
        None => Err(ControlErrorView::TopicNotFound(fresh::id_text(topic_id))),
        Some(topic) => {
            let p = PartitionKeyView { topic: topic.name, partition };
            if s.log.partitions.contains_key(p) {
                Ok((s.log.partitions[p].log_start_offset, s.log.partitions[p].next_offset))
            } else {
                Err(ControlErrorView::PartitionNotFound { topic: fresh::id_text(topic_id), partition })
            }
        },
    }
}

/// The bounds of a partition that a member of a share group may read.
pub open spec fn readable_bounds(s: StoreView, group_id: Seq<char>, member_id: Seq<char>, topic_id: u128, partition: i32) -> Result<
    (i64, i64),
    ControlErrorView,
> {
    match assignment_verdict(s, group_id, member_id, topic_id, partition) {
        Err(refusal) => Err(refusal),
        Ok(_) => log_bounds(s, topic_id, partition),
    }
}

/// Whether a key under which the state of a share group is kept names a partition; `refusal` is what
/// is wrong with the key itself.
pub open spec fn state_key_verdict(s: StoreView, topic_id: u128, partition: i32, refusal: Option<ControlErrorView>) -> Result<
    (),
    ControlErrorView,
> {
    match refusal {
        Some(refusal) => Err(refusal),
        None => match topics::topic_under(s.log, topic_id) {
            None => Err(ControlErrorView::TopicNotFound(fresh::id_text(topic_id))),
            Some(topic) => if partition >= topic.partitions {
                Err(ControlErrorView::PartitionNotFound { topic: topic.name, partition })
            } else {
                Ok(())
            },
        },
    }
}

/// The partitions of which the starts are told: those that were asked for, else those of `recorded`
/// whose topics exist.
pub open spec fn told_partitions(s: StoreView, asked: Option<Seq<PartitionKeyView>>, recorded: Seq<(u128, i32)>) -> Seq<PartitionKeyView>
    decreases recorded.len(),
{
    match asked {
        Some(partitions) => partitions,
        None => if recorded.len() == 0 {
            Seq::empty()
        } else {
            let before = told_partitions(s, asked, recorded.drop_last());
            match topics::topic_under(s.log, recorded.last().0) {
                Some(topic) => before.push(PartitionKeyView { topic: topic.name, partition: recorded.last().1 }),
                None => before,
            }
        },
    }
}

/// From where a share group reads a partition, when it has recorded the start `recorded`: never from
/// before the log's start, and minus one where nothing is recorded.
pub open spec fn start_of(log: MemoryPartitionView, recorded: Option<i64>) -> i64 {
    match recorded {
        None => -1i64,
        Some(start) => if start < log.log_start_offset {
            log.log_start_offset
        } else {
            start
        },
    }
}

/// What is told of the start of a partition. `delivered` is how many records between the start and the
/// end of the log the group is done with; it counts only where there is a start.
pub open spec fn start_told(s: StoreView, p: PartitionKeyView, recorded: Option<i64>, delivered: i32) -> Result<
    SharePartitionOffsetView,
    ControlErrorView,
> {
    if !s.log.topics.contains_key(p.topic) {
        Err(ControlErrorView::TopicNotFound(p.topic))
    } else if !s.log.partitions.contains_key(p) {
        Err(ControlErrorView::PartitionNotFound { topic: p.topic, partition: p.partition })
    } else {
        let log = s.log.partitions[p];
        let start_offset = start_of(log, recorded);
        Ok(
            SharePartitionOffsetView {
                partition: p,
                topic_id: s.log.topics[p.topic].id,
                start_offset,
                leader_epoch: 0,
                high_watermark: log.next_offset,
                delivery_complete_count: if start_offset < 0 {
                    0
                } else {
                    delivered
                },
            },
        )
    }
}

/// The offsets between which the records lie that a share group may be done with, where the group has
/// a start in the partition.
pub open spec fn delivery_range(s: StoreView, p: PartitionKeyView, recorded: Option<i64>) -> Option<(i64, i64)> {
    if s.log.partitions.contains_key(p) && start_of(s.log.partitions[p], recorded) >= 0 {
        Some((start_of(s.log.partitions[p], recorded), s.log.partitions[p].next_offset))
    } else {
        None
    }
}

/// What is said of one request to move a start.
pub open spec fn update_told(s: StoreView, p: PartitionKeyView) -> ShareOffsetUpdateResultView {
    let known = s.log.topics.contains_key(p.topic);
    ShareOffsetUpdateResultView {
        partition: p,
        topic_id: if known {
            Some(s.log.topics[p.topic].id)
        } else {
            None
        },
        updated: known && 0 <= p.partition < s.log.topics[p.topic].partitions,
    }
}

/// Whether a group of that id is of another kind than a share group.
pub open spec fn is_no_share_group(s: StoreView, group_id: Seq<char>) -> bool {
    s.classic.groups.contains_key(group_id) || s.consumer_groups.contains_key(group_id) || s.streams_groups.contains_key(group_id)
}

/// The state with a share group of that id.
pub open spec fn with_share_group(s: StoreView, group_id: Seq<char>) -> StoreView {
    if s.share_groups.contains_key(group_id) {
        s
    } else {
        StoreView { share_groups: s.share_groups.insert(group_id, ShareGroupView { members: Map::empty() }), ..s }
    }
}

/// The state after a request to join a share group, before the group itself has dealt with it.
pub open spec fn share_entered(s: StoreView, group_id: Seq<char>) -> (StoreView, Result<(), ControlErrorView>) {
    if is_no_share_group(s, group_id) {
        (s, Err(ControlErrorView::GroupProtocolMismatch(group_id)))
    } else {
        (with_share_group(s, group_id), Ok(()))
    }
}

/// The state in which a share group has let go of the members whose sessions are over; `live` are those
/// that are left. No group is made.
pub open spec fn share_settled(s: StoreView, group_id: Seq<char>, live: Map<Seq<char>, ShareMemberView>) -> StoreView {
    if s.share_groups.contains_key(group_id) {
        StoreView { share_groups: s.share_groups.insert(group_id, ShareGroupView { members: live }), ..s }
    } else {
        s
    }
}

/// The state after a request to move the starts of a share group; `live` are the members of the group
/// whose sessions last, and `refusal` is what is wrong with the request itself. Only a group without
/// such members lets its starts be moved.
pub open spec fn starts_altered(
    s: StoreView,
    group_id: Seq<char>,
    partitions: Seq<PartitionKeyView>,
    live: Map<Seq<char>, ShareMemberView>,
    refusal: Option<ControlErrorView>,
) -> (StoreView, Result<Seq<ShareOffsetUpdateResultView>, ControlErrorView>) {
    if refusal is Some {
        (s, Err(refusal->0))
    } else if is_no_share_group(s, group_id) {
        (s, Err(ControlErrorView::GroupProtocolMismatch(group_id)))
    } else if s.share_groups.contains_key(group_id) && live != Map::<Seq<char>, ShareMemberView>::empty() {
        (share_settled(s, group_id, live), Err(ControlErrorView::NonEmptyGroup(group_id)))
    } else {
        (
            with_share_group(share_settled(s, group_id, live), group_id),
            Ok(partitions.map_values(|p: PartitionKeyView| update_told(s, p))),
        )
    }
}

/// A topic's name with its id.
pub open spec fn with_id(s: StoreView, name: Seq<char>) -> (Seq<char>, Option<u128>) {
    (
        name,
        if s.log.topics.contains_key(name) {
            Some(s.log.topics[name].id)
        } else {
            None
        },
    )
}

/// The state after a request that a share group forget the starts of topics, and the ids of those
/// topics; `live` are the members of the group whose sessions last, and `refusal` is what is wrong with
/// the request itself.
pub open spec fn forgotten_topics(
    s: StoreView,
    group_id: Seq<char>,
    names: Seq<Seq<char>>,
    live: Map<Seq<char>, ShareMemberView>,
    refusal: Option<ControlErrorView>,
) -> (StoreView, Result<Seq<(Seq<char>, Option<u128>)>, ControlErrorView>) {
    if refusal is Some {
        (s, Err(refusal->0))
    } else if !s.share_groups.contains_key(group_id) {
        (s, Err(ControlErrorView::GroupNotFound(group_id)))
    } else {
        (
            share_settled(s, group_id, live),
            if live != Map::<Seq<char>, ShareMemberView>::empty() {
                Err(ControlErrorView::NonEmptyGroup(group_id))
            } else {
                Ok(names.map_values(|name: Seq<char>| with_id(s, name)))
            },
        )
    }
}

fn add_partitions(to: &mut SortedMap<(u128, i32), ()>, topic: &ShareTopicAssignment)
    ensures
        forall|p: (u128, i32)| #[trigger]
            final(to).deep_view().contains_key(p) <==> old(to).deep_view().contains_key(p) || (topic.deep_view().topic_id == p.0
                && topic.deep_view().partitions.contains(p.1)),
{
    let ghost before = to.deep_view();
    let ghost all = topic.partitions.deep_view();
    let mut i: usize = 0;
    while i < topic.partitions.len()
        invariant
            i <= topic.partitions@.len(),
            all == topic.partitions.deep_view(),
            forall|p: (u128, i32)| #[trigger]
                to.deep_view().contains_key(p) <==> before.contains_key(p) || (topic.topic_id == p.0 && all.take(i as int).to_set().contains(p.1)),
        decreases topic.partitions@.len() - i,
    {
        proof {
            assert(all[i as int] == topic.partitions@[i as int]);
            sorted_map::prefix_grows(all, i as int);
        }
        to.insert((topic.topic_id, topic.partitions[i]), ());
        i = i + 1;
    }
    assert(all.take(i as int) =~= all);
}

fn find_start(log: &MemoryPartition, recorded: Option<i64>) -> (r: i64)
    ensures
        r == start_of(log.deep_view(), recorded),
{
    match recorded {
        None => -1,
        Some(start) => if start < log.log_start_offset {
            log.log_start_offset
        } else {
            start
        },
    }
}

impl Store {
    /// The offsets between which the records lie that a share group may be done with.
    pub fn share_delivery_range(&self, partition: &PartitionKey, recorded: Option<i64>) -> (r: Option<(i64, i64)>)
        ensures
            r == delivery_range(self.deep_view(), partition.deep_view(), recorded),
    {
        let log = match self.log.partitions.get(partition) {
            Some(log) => log,
            None => return None,
        };
        let start: i64 = find_start(log, recorded);
        if start < 0 {
            None
        } else {
            Some((start, log.next_offset))
        }
    }

    /// The partitions that are assigned to a member of a share group.
    pub fn share_member_partitions(&self, group_id: &str, member_id: &str) -> (r: Result<SortedMap<(u128, i32), ()>, ControlError>)
        ensures
            error::outcome(r) == member_partitions(self.deep_view(), group_id@, member_id@),
    {
        let group = match self.share_groups.get(&group_id.to_owned()) {
            Some(group) => group,
            None => return Err(ControlError::GroupNotFound(group_id.to_owned())),
        };
        let member = match group.members.get(&member_id.to_owned()) {
            Some(member) => member,
            None => return Err(ControlError::GroupMemberNotFound { group: group_id.to_owned(), member: member_id.to_owned() }),
        };
        let ghost all = member.assignment.deep_view();
        let mut r: SortedMap<(u128, i32), ()> = SortedMap::new();
        let mut i: usize = 0;
        while i < member.assignment.len()
            invariant
                i <= member.assignment@.len(),
                all == member.assignment.deep_view(),
                forall|p: (u128, i32)| #[trigger] r.deep_view().contains_key(p) <==> named_in(all.take(i as int)).contains(p),
            decreases member.assignment@.len() - i,
        {
            let ghost shorter = all.take(i as int);
            let ghost longer = all.take(i + 1);
            proof {
                assert(all[i as int] == member.assignment@[i as int].deep_view());
                sorted_map::prefix_grows(all, i as int);
                assert forall|p: (u128, i32)| named_in(longer).contains(p) <==> named_in(shorter).contains(p) || (all[i as int].topic_id == p.0
                    && all[i as int].partitions.contains(p.1)) by {
                    if named_in(shorter).contains(p) {
                        let j = choose|j: int|
                            0 <= j < shorter.len() && (#[trigger] shorter[j]).topic_id == p.0 && shorter[j].partitions.contains(p.1);
                        assert(longer[j] == shorter[j]);
                    }
                    if named_in(longer).contains(p) {
                        let j = choose|j: int|
                            0 <= j < longer.len() && (#[trigger] longer[j]).topic_id == p.0 && longer[j].partitions.contains(p.1);
                        if j < i {
                            assert(longer[j] == shorter[j]);
                        }
                    }
                    assert(longer[i as int] == all[i as int]);
                }
            }
            add_partitions(&mut r, &member.assignment[i]);
            i = i + 1;
        }
        assert(all.take(i as int) =~= all);
        assert(r.deep_view() =~= Map::new(|p: (u128, i32)| named_in(all).contains(p), |p: (u128, i32)| ()));
        Ok(r)
    }

    /// Checks that a member of a share group may read a partition.
    pub fn check_share_assignment(&self, group_id: &str, member_id: &str, topic_id: u128, partition: i32) -> (r: Result<(), ControlError>)
        ensures
            error::outcome(r) == assignment_verdict(self.deep_view(), group_id@, member_id@, topic_id, partition),
    {
        let assigned = self.share_member_partitions(group_id, member_id)?;
        if !assigned.contains_key(&(topic_id, partition)) {
            return Err(ControlError::InvalidRequest("share partition is not assigned to the member".to_owned()));
        }
        Ok(())
    }

    /// Finds the bounds of the log of a partition that a member of a share group may read.
    pub fn share_partition_bounds(&self, group_id: &str, member_id: &str, topic_id: u128, partition: i32) -> (r: Result<
        (i64, i64),
        ControlError,
    >)
        ensures
            error::outcome(r) == readable_bounds(self.deep_view(), group_id@, member_id@, topic_id, partition),
    {
        self.check_share_assignment(group_id, member_id, topic_id, partition)?;
        let topic = match self.log.topic_by_id(topic_id) {
            Some(topic) => topic,
            None => return Err(ControlError::TopicNotFound(write_id(topic_id))),
        };
        match self.log.partitions.get(&PartitionKey { topic: topic.name, partition }) {
            Some(log) => Ok((log.log_start_offset, log.next_offset)),
            None => Err(ControlError::PartitionNotFound { topic: write_id(topic_id), partition }),
        }
    }

    /// Checks that a key under which the state of a share group is kept names a partition.
    pub fn validate_share_state_key(&self, topic_id: u128, partition: i32, refusal: Option<ControlError>) -> (r: Result<(), ControlError>)
        ensures
            error::outcome(r) == state_key_verdict(self.deep_view(), topic_id, partition, refusal.deep_view()),
    {
        if let Some(refusal) = refusal {
            return Err(refusal);
        }
        match self.log.topic_by_id(topic_id) {
            None => Err(ControlError::TopicNotFound(write_id(topic_id))),
            Some(topic) => if partition >= topic.partitions {
                Err(ControlError::PartitionNotFound { topic: topic.name, partition })
            } else {
                Ok(())
            },
        }
    }

    /// The partitions of which the starts of a share group are told.
    pub fn share_offset_partitions(&self, group_id: &str, partitions: Option<&[PartitionKey]>, recorded: &Vec<(u128, i32)>) -> (r: Result<
        Vec<PartitionKey>,
        ControlError,
    >)
        ensures
            error::outcome(r) == (if self.deep_view().share_groups.contains_key(group_id@) {
                Ok(
                    told_partitions(
                        self.deep_view(),
                        match partitions {
                            Some(partitions) => Some(sorted_map::models(partitions@)),
                            None => None,
                        },
                        recorded@,
                    ),
                )
            } else {
                Err(ControlErrorView::GroupNotFound(group_id@))
            }),
    {
        if !self.share_groups.contains_key(&group_id.to_owned()) {
            return Err(ControlError::GroupNotFound(group_id.to_owned()));
        }
        if let Some(partitions) = partitions {
            return Ok(sorted_map::duplicate_slice(partitions));
        }
        let ghost s = self.deep_view();
        let mut r: Vec<PartitionKey> = Vec::new();
        let mut i: usize = 0;
        assert(recorded@.take(0) =~= Seq::empty());
        assert(r.deep_view() =~= Seq::empty());
        while i < recorded.len()
            invariant
                i <= recorded@.len(),
                s == self.deep_view(),
                r.deep_view() == told_partitions(s, None, recorded@.take(i as int)),
            decreases recorded@.len() - i,
        {
            proof {
                sorted_map::prefix_grows(recorded@, i as int);
            }
            if let Some(topic) = self.log.topic_by_id(recorded[i].0) {
                let ghost before = r.deep_view();
                r.push(PartitionKey { topic: topic.name, partition: recorded[i].1 });
                assert(r.deep_view() =~= before.push(PartitionKeyView { topic: topic.name@, partition: recorded@[i as int].1 }));
            }
            i = i + 1;
        }
        assert(recorded@.take(i as int) =~= recorded@);
        Ok(r)
    }

    /// Tells from where a share group reads a partition, given the start that it has recorded and how
    /// many records behind that start it is done with.
    pub fn describe_share_offset(&self, partition: &PartitionKey, recorded: Option<i64>, delivered: i32) -> (r: Result<
        SharePartitionOffset,
        ControlError,
    >)
        ensures
            error::outcome(r) == start_told(self.deep_view(), partition.deep_view(), recorded, delivered),
    {
        let topic = match self.log.topics.get(&partition.topic) {
            Some(topic) => topic,
            None => return Err(ControlError::TopicNotFound(partition.topic.clone())),
        };
        let log = match self.log.partitions.get(partition) {
            Some(log) => log,
            None => return Err(
                ControlError::PartitionNotFound { topic: partition.topic.clone(), partition: partition.partition },
            ),
        };
        let start_offset: i64 = find_start(log, recorded);
        Ok(
            SharePartitionOffset {
                partition: partition.duplicate(),
                topic_id: topic.id,
                start_offset,
                leader_epoch: 0,
                high_watermark: log.next_offset,
                delivery_complete_count: if start_offset < 0 {
                    0
                } else {
                    delivered
                },
            },
        )
    }

    /// Makes way for a request to join a share group.
    pub fn enter_share_group(&mut self, group_id: &str) -> (r: Result<(), ControlError>)
        ensures
            (final(self).deep_view(), error::outcome(r)) == share_entered(old(self).deep_view(), group_id@),
    {
        let id = group_id.to_owned();
        if self.classic.groups.contains_key(&id) || self.consumer_groups.contains_key(&id) || self.streams_groups.contains_key(&id) {
            return Err(ControlError::GroupProtocolMismatch(id));
        }
        if !self.share_groups.contains_key(&id) {
            self.share_groups.insert(id, ShareGroup { members: SortedMap::new() });
        }
        Ok(())
    }

    /// Makes way for a request to join a streams group.
    pub fn check_streams_group(&self, group_id: &str) -> (r: Result<(), ControlError>)
        ensures
            error::outcome(r) == (if self.deep_view().classic.groups.contains_key(group_id@) || self.deep_view().consumer_groups.contains_key(
                group_id@,
            ) || self.deep_view().share_groups.contains_key(group_id@) {
                Err(ControlErrorView::GroupProtocolMismatch(group_id@))
            } else {
                Ok::<(), ControlErrorView>(())
            }),
    {
        let id = group_id.to_owned();
        if self.classic.groups.contains_key(&id) || self.consumer_groups.contains_key(&id) || self.share_groups.contains_key(&id) {
            return Err(ControlError::GroupProtocolMismatch(id));
        }
        Ok(())
    }

    /// Lets a share group go of the members whose sessions are over.
    fn settle_share_group(&mut self, id: &String, live: SortedMap<String, ShareMember>)
        ensures
            final(self).deep_view() == share_settled(old(self).deep_view(), id@, live.deep_view()),
    {
        if self.share_groups.contains_key(id) {
            self.share_groups.insert(id.clone(), ShareGroup { members: live });
        }
    }

    /// Decides which starts of a share group are moved; `live` are the members of the group whose
    /// sessions last.
    pub fn alter_share_group_offsets(
        &mut self,
        group_id: &str,
        partitions: &Vec<PartitionKey>,
        live: SortedMap<String, ShareMember>,
        refusal: Option<ControlError>,
    ) -> (r: Result<Vec<ShareOffsetUpdateResult>, ControlError>)
        ensures
            (final(self).deep_view(), error::outcome(r)) == starts_altered(
                old(self).deep_view(),
                group_id@,
                partitions.deep_view(),
                live.deep_view(),
                refusal.deep_view(),
            ),
    {
        if let Some(refusal) = refusal {
            return Err(refusal);
        }
        let ghost s = self.deep_view();
        let id = group_id.to_owned();
        if self.classic.groups.contains_key(&id) || self.consumer_groups.contains_key(&id) || self.streams_groups.contains_key(&id) {
            return Err(ControlError::GroupProtocolMismatch(id));
        }
        let occupied = !live.is_empty();
        assert(occupied == (live.deep_view() != Map::<Seq<char>, ShareMemberView>::empty())) by {
            if !occupied {
                assert(live.deep_view() =~= Map::empty());
            }
        }
        let exists = self.share_groups.contains_key(&id);
        self.settle_share_group(&id, live);
        if exists && occupied {
            return Err(ControlError::NonEmptyGroup(id));
        }
        let ghost t = self.deep_view();
        let ghost all = partitions.deep_view();
        let mut results: Vec<ShareOffsetUpdateResult> = Vec::new();
        let mut i: usize = 0;
        while i < partitions.len()
            invariant
                i <= partitions@.len(),
                all == partitions.deep_view(),
                t == self.deep_view(),
                t.log == s.log,
                results@.len() == i,
                forall|j: int| 0 <= j < i ==> (#[trigger] results@[j]).deep_view() == update_told(s, all[j]),
            decreases partitions@.len() - i,
        {
            let partition = &partitions[i];
            assert(all[i as int] == partition.deep_view());
            let (topic_id, updated): (Option<u128>, bool) = match self.log.topics.get(&partition.topic) {
                Some(topic) => (Some(topic.id), partition.partition >= 0 && partition.partition < topic.partitions),
                None => (None, false),
            };
            results.push(ShareOffsetUpdateResult { partition: partition.duplicate(), topic_id, updated });
            i = i + 1;
        }
        assert(results.deep_view() =~= all.map_values(|p: PartitionKeyView| update_told(s, p)));
        if !self.share_groups.contains_key(&id) {
            self.share_groups.insert(id, ShareGroup { members: SortedMap::new() });
        }
        Ok(results)
    }

    /// Finds the topics whose starts a share group is to forget; `live` are the members of the group
    /// whose sessions last.
    pub fn share_topics_to_forget(
        &mut self,
        group_id: &str,
        names: &Vec<String>,
        live: SortedMap<String, ShareMember>,
        refusal: Option<ControlError>,
    ) -> (r: Result<Vec<(String, Option<u128>)>, ControlError>)
        ensures
            (final(self).deep_view(), error::outcome(r)) == forgotten_topics(
                old(self).deep_view(),
                group_id@,
                names.deep_view(),
                live.deep_view(),
                refusal.deep_view(),
            ),
    {
        if let Some(refusal) = refusal {
            return Err(refusal);
        }
        let ghost s = self.deep_view();
        let id = group_id.to_owned();
        if !self.share_groups.contains_key(&id) {
            return Err(ControlError::GroupNotFound(id));
        }
        let occupied = !live.is_empty();
        assert(occupied == (live.deep_view() != Map::<Seq<char>, ShareMemberView>::empty())) by {
            if !occupied {
                assert(live.deep_view() =~= Map::empty());
            }
        }
        self.settle_share_group(&id, live);
        if occupied {
            return Err(ControlError::NonEmptyGroup(id));
        }
        let ghost t = self.deep_view();
        let ghost all = names.deep_view();
        let mut r: Vec<(String, Option<u128>)> = Vec::new();
        let mut i: usize = 0;
        while i < names.len()
            invariant
                i <= names@.len(),
                all == names.deep_view(),
                t == self.deep_view(),
                t.log == s.log,
                r@.len() == i,
                forall|j: int| 0 <= j < i ==> (#[trigger] r@[j]).deep_view() == with_id(s, all[j]),
            decreases names@.len() - i,
        {
            assert(all[i as int] == names@[i as int]@);
            let topic_id: Option<u128> = match self.log.topics.get(&names[i]) {
                Some(topic) => Some(topic.id),
                None => None,
            };
            r.push((names[i].clone(), topic_id));
            i = i + 1;
        }
        assert(r.deep_view() =~= all.map_values(|name: Seq<char>| with_id(s, name)));
        Ok(r)
    }
}

/// A share group never gets the id of a group of another kind.
pub proof fn share_groups_keep_apart(
    s: StoreView,
    group_id: Seq<char>,
    partitions: Seq<PartitionKeyView>,
    live: Map<Seq<char>, ShareMemberView>,
)
    requires
        forall|id: Seq<char>| #[trigger] s.share_groups.contains_key(id) ==> !is_no_share_group(s, id),
    ensures
        ({
            let after = share_entered(s, group_id).0;
            forall|id: Seq<char>| #[trigger] after.share_groups.contains_key(id) ==> !is_no_share_group(after, id)
        }),
        ({
            let after = starts_altered(s, group_id, partitions, live, None).0;
            forall|id: Seq<char>| #[trigger] after.share_groups.contains_key(id) ==> !is_no_share_group(after, id)
        }),
{
}

/// A share group never reads from before the start of a log.
pub proof fn starts_are_within_the_log(s: StoreView, p: PartitionKeyView, recorded: i64, delivered: i32)
    requires
        start_told(s, p, Some(recorded), delivered) is Ok,
    ensures
        start_told(s, p, Some(recorded), delivered)->Ok_0.start_offset >= s.log.partitions[p].log_start_offset,
        start_told(s, p, Some(recorded), delivered)->Ok_0.start_offset >= recorded,
{
}

} // verus!
