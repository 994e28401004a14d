//! The offsets that members of groups store and delete.

use crate::classic_groups::{MemoryGroup, MemoryGroupView};
use crate::classic_join;
use crate::consumer_queries;
use crate::consumer_types::{ConsumerGroupState, ConsumerGroupStateView, ConsumerMemberState, ConsumerMemberStateView};
use crate::error;
use crate::error::{ControlError, ControlErrorView};
use crate::group_admin;
use crate::group_admin::stores_offsets;
use crate::groups::{GroupMember, GroupMemberView};
use crate::log_reads;
use crate::log_types::{
    CommittedOffset, CommittedOffsetView, LogStateView, OffsetCommit, OffsetCommitView, ProducerSession,
};
use crate::offsets;
use crate::partition::{PartitionKey, PartitionKeyView};
use crate::patterns;
use crate::patterns::pattern_matches;
use crate::sorted_map;
use crate::sorted_map::{Duplicate, SortedMap};
use crate::store::{Store, StoreView, StreamsCheck, StreamsCheckView};
use crate::text::lists_text;
use crate::time;
use crate::time::Timestamp;
use crate::transactions;
use crate::transactions::require_partitions;
use vstd::prelude::*;

verus! {

/// The partitions of some offsets.
pub open spec fn partitions_of(offsets: Seq<OffsetCommitView>) -> Seq<PartitionKeyView> {
    Seq::new(offsets.len(), |i: int| offsets[i].partition)
}

fn list_partitions(offsets: &Vec<OffsetCommit>) -> (r: Vec<PartitionKey>)
    ensures
        r.deep_view() == partitions_of(offsets.deep_view()),
{
    let ghost all = offsets.deep_view();
    let mut r: Vec<PartitionKey> = Vec::new();
    let mut i: usize = 0;
    while i < offsets.len()
        invariant
            i <= offsets@.len(),
            r@.len() == i,
            all == offsets.deep_view(),
            forall|j: int| 0 <= j < i ==> (#[trigger] r@[j]).deep_view() == all[j].partition,
        decreases offsets@.len() - i,
    {
        assert(all[i as int] == offsets@[i as int].deep_view());
        r.push(offsets[i].partition.duplicate());
        i = i + 1;
    }
    assert(r.deep_view() =~= partitions_of(all));
    r
}

/// The offsets of a list that are accepted.
pub open spec fn accepted(offsets: Seq<OffsetCommitView>, verdicts: Seq<bool>) -> Seq<OffsetCommitView>
    decreases offsets.len(),
{
    if offsets.len() == 0 {
        offsets
    } else if verdicts[offsets.len() - 1] {
        accepted(offsets.drop_last(), verdicts).push(offsets.last())
    } else {
        accepted(offsets.drop_last(), verdicts)
    }
}

fn keep_accepted(offsets: &Vec<OffsetCommit>, verdicts: &Vec<bool>) -> (r: Vec<OffsetCommit>)
    requires
        verdicts@.len() == offsets@.len(),
    ensures
        r.deep_view() == accepted(offsets.deep_view(), verdicts.deep_view()),
{
    let ghost all = offsets.deep_view();
    let ghost v = verdicts.deep_view();
    let mut r: Vec<OffsetCommit> = Vec::new();
    let mut i: usize = 0;
    assert(all.take(0) =~= Seq::empty());
    assert(r.deep_view() =~= Seq::empty());
    while i < offsets.len()
        invariant
            i <= offsets@.len(),
            verdicts@.len() == offsets@.len(),
            all == offsets.deep_view(),
            v == verdicts.deep_view(),
            r.deep_view() == accepted(all.take(i as int), v),
        decreases offsets@.len() - i,
    {
        proof {
            assert(all[i as int] == offsets@[i as int].deep_view());
            assert(v[i as int] == verdicts@[i as int]);
            sorted_map::prefix_grows(all, i as int);
        }
        if verdicts[i] {
            let ghost before = r.deep_view();
            r.push(offsets[i].duplicate());
            assert(r.deep_view() =~= before.push(all[i as int]));
        }
        i = i + 1;
    }
    assert(all.take(i as int) =~= all);
    r
}

/// The first version of the request with which consumers can store offsets.
pub const CONSUMER_COMMIT_VERSION: i16 = 9;

/// The state after a member has stored offsets, and which of them were accepted.
pub open spec fn member_offsets_committed(
    s: StoreView,
    group_id: Seq<char>,
    member_id: Seq<char>,
    instance: Option<Seq<char>>,
    generation_or_epoch: i32,
    api_version: i16,
    offsets: Seq<OffsetCommitView>,
    streams: Option<StreamsCheckView>,
    now: int,
) -> (StoreView, Result<Seq<bool>, ControlErrorView>) {
    let now_ms = time::whole_millis(now) as i64;
    if s.consumer_groups.contains_key(group_id) {
        if api_version < CONSUMER_COMMIT_VERSION {
            (
                s,
                Err(ControlErrorView::UnsupportedVersion("consumer protocol members require OffsetCommit version 9 or newer"@)),
            )
        } else {
            match consumer_queries::commit_verdict(
                s.consumer_groups[group_id],
                member_id,
                generation_or_epoch,
                partitions_of(offsets),
            ) {
                Err(refusal) => (s, Err(refusal)),
                Ok(verdicts) => {
                    let (log, outcome) = offsets::offsets_committed(s.log, group_id, accepted(offsets, verdicts), now_ms);
                    (
                        StoreView { log, ..s },
                        match outcome {
                            Err(refusal) => Err(refusal),
                            Ok(_) => Ok(verdicts),
                        },
                    )
                },
            }
        }
    } else {
        let (checked, verdict) = group_admin::member_checked(
            s,
            group_id,
            member_id,
            instance,
            generation_or_epoch,
            streams,
            now,
        );
        match verdict {
            Err(refusal) => (checked, Err(refusal)),
            Ok(_) => {
                let (log, outcome) = offsets::offsets_committed(checked.log, group_id, offsets, now_ms);
                (
                    StoreView { log, ..checked },
                    match outcome {
                        Err(refusal) => Err(refusal),
                        Ok(_) => Ok(Seq::new(offsets.len(), |i: int| true)),
                    },
                )
            },
        }
    }
}

/// Whether a commit in a transaction names no member.
pub open spec fn is_anonymous(member_id: Seq<char>, instance: Option<Seq<char>>, generation_or_epoch: i32) -> bool {
    generation_or_epoch == -1 && member_id.len() == 0 && instance is None
}

/// The state after a member has stored offsets in a transaction.
pub open spec fn member_offsets_in_transaction(
    s: StoreView,
    transactional_id: Seq<char>,
    producer: ProducerSession,
    group_id: Seq<char>,
    member_id: Seq<char>,
    instance: Option<Seq<char>>,
    generation_or_epoch: i32,
    add_group: bool,
    offsets: Seq<OffsetCommitView>,
    streams: Option<StreamsCheckView>,
    fresh: u128,
    now: int,
) -> (StoreView, Result<(), ControlErrorView>) {
    let (checked, verdict) = if s.consumer_groups.contains_key(group_id) {
        (
            s,
            consumer_queries::transaction_verdict(
                s.consumer_groups[group_id],
                member_id,
                instance,
                generation_or_epoch,
                partitions_of(offsets),
            ),
        )
    } else if is_anonymous(member_id, instance, generation_or_epoch) {
        (s, Ok(()))
    } else {
        group_admin::member_checked(s, group_id, member_id, instance, generation_or_epoch, streams, now)
    };
    match verdict {
        Err(refusal) => (checked, Err(refusal)),
        Ok(_) => {
            let (log, outcome) = offsets::offsets_in_transaction(
                checked.log,
                transactional_id,
                producer,
                group_id,
                add_group,
                offsets,
                fresh,
                now,
            );
            (StoreView { log, ..checked }, outcome)
        },
    }
}

/// Whether a member of a classic group subscribes to a topic.
pub open spec fn classics_subscribe(group: MemoryGroupView, topic: Seq<char>) -> bool {
    exists|id: Seq<char>| #[trigger] group.members.contains_key(id) && group.members[id].subscribed_topics.contains(topic)
}

/// Whether a consumer names a topic, or its pattern occurs in the topic's name.
pub open spec fn consumer_reads(member: ConsumerMemberStateView, topic: Seq<char>) -> bool {
    member.subscribed_topic_names.contains(topic) || (member.subscribed_topic_regex is Some && patterns::regex_matches(
        member.subscribed_topic_regex->0,
        topic,
    ))
}

/// Whether a member of a consumer group names a topic, or its pattern occurs in the topic's name.
pub open spec fn consumers_subscribe(group: ConsumerGroupStateView, topic: Seq<char>) -> bool {
    exists|id: Seq<char>| #[trigger] group.members.contains_key(id) && consumer_reads(group.members[id], topic)
}

/// Whether a group still reads a topic.
pub open spec fn still_reads(s: StoreView, group_id: Seq<char>, topic: Seq<char>) -> bool {
    ||| s.classic.groups.contains_key(group_id) && classics_subscribe(s.classic.groups[group_id], topic)
    ||| s.consumer_groups.contains_key(group_id) && consumers_subscribe(s.consumer_groups[group_id], topic)
}

/// The partitions of a list whose topics a group still reads.
pub open spec fn blocked(s: StoreView, group_id: Seq<char>, partitions: Seq<PartitionKeyView>) -> Map<PartitionKeyView, ()> {
    Map::new(|p: PartitionKeyView| partitions.contains(p) && still_reads(s, group_id, p.topic), |p: PartitionKeyView| ())
}

/// The offsets without those of a group for the partitions of a list, but for the blocked ones.
pub open spec fn without_unblocked(
    offsets: Map<(Seq<char>, PartitionKeyView), CommittedOffsetView>,
    group_id: Seq<char>,
    partitions: Seq<PartitionKeyView>,
    blocked: Set<PartitionKeyView>,
) -> Map<(Seq<char>, PartitionKeyView), CommittedOffsetView> {
    Map::new(
        |key: (Seq<char>, PartitionKeyView)|
            offsets.contains_key(key) && !(key.0 == group_id && partitions.contains(key.1) && !blocked.contains(key.1)),
        |key: (Seq<char>, PartitionKeyView)| offsets[key],
    )
}

/// The state after a group has deleted offsets, and the partitions for which it could not.
pub open spec fn offsets_deleted(s: StoreView, group_id: Seq<char>, partitions: Seq<PartitionKeyView>) -> (
    StoreView,
    Result<Map<PartitionKeyView, ()>, ControlErrorView>,
) {
    if !s.classic.groups.contains_key(group_id) && !s.consumer_groups.contains_key(group_id) && !group_admin::has_offsets(
        s.log.offsets,
        group_id,
    ) {
        (s, Err(ControlErrorView::GroupNotFound(group_id)))
    } else {
        match transactions::first_missing(s.log, partitions) {
            Some(p) => (s, Err(log_reads::no_partition(p))),
            None => {
                let kept = blocked(s, group_id, partitions);
                (
                    StoreView {
                        log: LogStateView {
                            offsets: without_unblocked(s.log.offsets, group_id, partitions, kept.dom()),
                            ..s.log
                        },
                        ..s
                    },
                    Ok(kept),
                )
            },
        }
    }
}

fn classic_group_reads(group: &MemoryGroup, topic: &str) -> (r: bool)
    ensures
        r == classics_subscribe(group.deep_view(), topic@),
{
    let ghost t = topic@;
    let ghost reads = |id: Seq<char>, member: GroupMemberView| member.subscribed_topics.contains(t);
    let test = |id: &String, member: &GroupMember| -> (b: bool)
        ensures b == reads(id.deep_view(), member.deep_view())
    {
        lists_text(&member.subscribed_topics, topic)
    };
    let r = group.members.any(test, Ghost(reads));
    proof {
        let m = group.deep_view().members;
        if r {
            let id = choose|id: Seq<char>| #[trigger] m.contains_key(id) && reads(id, m[id]);
            assert(m.contains_key(id) && m[id].subscribed_topics.contains(t));
        } else if classics_subscribe(group.deep_view(), t) {
            let id = choose|id: Seq<char>| #[trigger] m.contains_key(id) && m[id].subscribed_topics.contains(t);
            assert(reads(id, m[id]));
        }
    }
    r
}

fn consumer_group_reads(group: &ConsumerGroupState, topic: &str) -> (r: bool)
    ensures
        r == consumers_subscribe(group.deep_view(), topic@),
{
    let ghost t = topic@;
    let ghost reads = |id: Seq<char>, member: ConsumerMemberStateView| consumer_reads(member, t);
    let test = |id: &String, member: &ConsumerMemberState| -> (b: bool)
        ensures b == reads(id.deep_view(), member.deep_view())
    {
        lists_text(&member.subscribed_topic_names, topic) || match &member.subscribed_topic_regex {
            Some(pattern) => pattern_matches(pattern.as_str(), topic),
            None => false,
        }
    };
    let r = group.members.any(test, Ghost(reads));
    proof {
        let m = group.deep_view().members;
        if r {
            let id = choose|id: Seq<char>| #[trigger] m.contains_key(id) && reads(id, m[id]);
            assert(m.contains_key(id) && consumer_reads(m[id], t));
        } else if consumers_subscribe(group.deep_view(), t) {
            let id = choose|id: Seq<char>| #[trigger] m.contains_key(id) && consumer_reads(m[id], t);
            assert(reads(id, m[id]));
        }
    }
    r
}

/// Deletes the offsets of a group for the partitions of a list, but for the blocked ones.
pub fn delete_unblocked(
    offsets: &mut SortedMap<(String, PartitionKey), CommittedOffset>,
    group_id: &str,
    partitions: &[PartitionKey],
    blocked: &SortedMap<PartitionKey, ()>,
)
    ensures
        final(offsets).deep_view() == without_unblocked(
            old(offsets).deep_view(),
            group_id@,
            sorted_map::models(partitions@),
            blocked.deep_view().dom(),
        ),
{
    let ghost m = offsets.deep_view();
    let ghost all = sorted_map::models(partitions@);
    let ghost kept = blocked.deep_view().dom();
    let mut i: usize = 0;
    while i < partitions.len()
        invariant
            i <= partitions@.len(),
            all == sorted_map::models(partitions@),
            kept == blocked.deep_view().dom(),
            forall|key: (Seq<char>, PartitionKeyView)| #[trigger] offsets.deep_view().contains_key(key) <==> m.contains_key(key)
                && !(key.0 == group_id@ && all.take(i as int).to_set().contains(key.1) && !kept.contains(key.1)),
            forall|key: (Seq<char>, PartitionKeyView)| #[trigger] offsets.deep_view().contains_key(key) ==> offsets.deep_view()[key] == m[key],
        decreases partitions@.len() - i,
    {
        proof {
            assert(all[i as int] == partitions@[i as int].deep_view());
            sorted_map::prefix_grows(all, i as int);
        }
        if !blocked.contains_key(&partitions[i]) {
            offsets.remove(&(group_id.to_owned(), partitions[i].duplicate()));
        }
        i = i + 1;
    }
    assert(all.take(i as int) =~= all);
    assert(offsets.deep_view() =~= without_unblocked(m, group_id@, all, kept));
}

impl Store {
    /// Stores offsets of a member, and tells which of them were accepted; `streams` is what a
    /// streams group of that id makes of the member.
    pub fn commit_member_offsets(
        &mut self,
        group_id: &str,
        member_id: &str,
        group_instance_id: Option<&str>,
        generation_or_epoch: i32,
        api_version: i16,
        offsets: Vec<OffsetCommit>,
        streams: Option<StreamsCheck>,
        now: Timestamp,
    ) -> (r: Result<Vec<bool>, ControlError>)
        requires
            classic_join::generations_left(old(self).deep_view().classic, group_id@, 1),
        ensures
            (final(self).deep_view(), error::outcome(r)) == member_offsets_committed(
                old(self).deep_view(),
                group_id@,
                member_id@,
                group_instance_id.deep_view(),
                generation_or_epoch,
                api_version,
                offsets.deep_view(),
                streams.deep_view(),
                now.deep_view(),
            ),
    {
        let id = group_id.to_owned();
        if let Some(group) = self.consumer_groups.get(&id) {
            if api_version < CONSUMER_COMMIT_VERSION {
                return Err(
                    ControlError::UnsupportedVersion("consumer protocol members require OffsetCommit version 9 or newer".to_owned()),
                );
            }
            let partitions = list_partitions(&offsets);
            assert(sorted_map::models(partitions@) =~= partitions.deep_view());
            let verdicts = match consumer_queries::validate_offset_commit(
                group,
                member_id,
                generation_or_epoch,
                partitions.as_slice(),
            ) {
                Ok(verdicts) => verdicts,
                Err(refusal) => return Err(refusal),
            };
            assert(verdicts.deep_view().len() == partitions.deep_view().len());
            assert(verdicts.deep_view().len() == verdicts@.len());
            assert(partitions.deep_view().len() == offsets.deep_view().len());
            let kept = keep_accepted(&offsets, &verdicts);
            return match self.log.commit_offsets(group_id, kept, now.millis()) {
                Ok(_) => Ok(verdicts),
                Err(refusal) => Err(refusal),
            };
        }
        let count: usize = offsets.len();
        match self.validate_group_member(group_id, member_id, group_instance_id, generation_or_epoch, streams, now) {
            Ok(_) => {},
            Err(refusal) => return Err(refusal),
        }
        assert(offsets.deep_view().len() == count);
        match self.log.commit_offsets(group_id, offsets, now.millis()) {
            Ok(_) => {},
            Err(refusal) => return Err(refusal),
        }
        let mut r: Vec<bool> = Vec::new();
        while r.len() < count
            invariant
                r@.len() <= count,
                forall|j: int| 0 <= j < r@.len() ==> #[trigger] r@[j],
            decreases count - r@.len(),
        {
            r.push(true);
        }
        assert(r.deep_view() =~= Seq::new(count as nat, |i: int| true));
        Ok(r)
    }

    /// Stores offsets of a member in the transaction of a producer.
    pub fn commit_transaction_member_offsets(
        &mut self,
        transactional_id: &str,
        producer: ProducerSession,
        group_id: &str,
        member_id: &str,
        group_instance_id: Option<&str>,
        generation_or_epoch: i32,
        add_group: bool,
        offsets: Vec<OffsetCommit>,
        streams: Option<StreamsCheck>,
        fresh: u128,
        now: Timestamp,
    ) -> (r: Result<(), ControlError>)
        requires
            classic_join::generations_left(old(self).deep_view().classic, group_id@, 1),
        ensures
            (final(self).deep_view(), error::outcome(r)) == member_offsets_in_transaction(
                old(self).deep_view(),
                transactional_id@,
                producer,
                group_id@,
                member_id@,
                group_instance_id.deep_view(),
                generation_or_epoch,
                add_group,
                offsets.deep_view(),
                streams.deep_view(),
                fresh,
                now.deep_view(),
            ),
    {
        let id = group_id.to_owned();
        let verdict: Result<(), ControlError> = match self.consumer_groups.get(&id) {
            Some(group) => {
                let partitions = list_partitions(&offsets);
                assert(sorted_map::models(partitions@) =~= partitions.deep_view());
                consumer_queries::validate_transaction_offset_commit(
                    group,
                    member_id,
                    group_instance_id,
                    generation_or_epoch,
                    partitions.as_slice(),
                )
            },
            None => if generation_or_epoch == -1 && member_id.is_empty() && group_instance_id.is_none() {
                Ok(())
            } else {
                self.validate_group_member(group_id, member_id, group_instance_id, generation_or_epoch, streams, now)
            },
        };
        match verdict {
            Ok(_) => {},
            Err(refusal) => return Err(refusal),
        }
        self.log.commit_transaction_offsets(transactional_id, producer, group_id, add_group, offsets, fresh, now)
    }

    /// Decides whether a group still reads a topic.
    pub fn group_reads(&self, group_id: &String, topic: &str) -> (r: bool)
        ensures
            r == still_reads(self.deep_view(), group_id@, topic@),
    {
        let classic = match self.classic.groups.get(group_id) {
            Some(group) => classic_group_reads(group, topic),
            None => false,
        };
        let consumer = match self.consumer_groups.get(group_id) {
            Some(group) => consumer_group_reads(group, topic),
            None => false,
        };
        classic || consumer
    }

    /// Deletes offsets of a group for topics that it no longer reads, and tells for which partitions
    /// it could not.
    pub fn delete_offsets(&mut self, group_id: &str, partitions: &[PartitionKey]) -> (r: Result<SortedMap<PartitionKey, ()>, ControlError>)
        ensures
            (final(self).deep_view(), error::outcome(r)) == offsets_deleted(
                old(self).deep_view(),
                group_id@,
                sorted_map::models(partitions@),
            ),
    {
        let ghost s = self.deep_view();
        let ghost all = sorted_map::models(partitions@);
        let id = group_id.to_owned();
        let exists = self.classic.groups.contains_key(&id) || self.consumer_groups.contains_key(&id) || stores_offsets(
            &self.log.offsets,
            group_id,
        );
        if !exists {
            return Err(ControlError::GroupNotFound(id));
        }
        match require_partitions(&self.log, partitions) {
            Ok(_) => {},
            Err(refusal) => return Err(refusal),
        }
        let mut kept: SortedMap<PartitionKey, ()> = SortedMap::new();
        let mut i: usize = 0;
        while i < partitions.len()
            invariant
                i <= partitions@.len(),
                s == self.deep_view(),
                id@ == group_id@,
                all == sorted_map::models(partitions@),
                forall|p: PartitionKeyView| #[trigger] kept.deep_view().contains_key(p) <==> all.take(i as int).to_set().contains(p)
                    && still_reads(s, group_id@, p.topic),
            decreases partitions@.len() - i,
        {
            proof {
                assert(all[i as int] == partitions@[i as int].deep_view());
                sorted_map::prefix_grows(all, i as int);
            }
            if self.group_reads(&id, partitions[i].topic.as_str()) {
                kept.insert(partitions[i].duplicate(), ());
            }
            i = i + 1;
        }
        assert(all.take(i as int) =~= all);
        assert(kept.deep_view() =~= blocked(s, group_id@, all));
        delete_unblocked(&mut self.log.offsets, group_id, partitions, &kept);
        Ok(kept)
    }
}

} // verus!
