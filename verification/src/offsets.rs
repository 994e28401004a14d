//! The offsets that groups store.

use crate::error;
use crate::error::{ControlError, ControlErrorView};
use crate::log_reads;
use crate::log_reads::partition_not_found;
use crate::log_types::{
    CommittedOffset, CommittedOffsetView, LogState, LogStateView, MemoryTransactionView, OffsetCommit,
    OffsetCommitView, ProducerSession,
};
use crate::observability::{ConsumerLag, ConsumerLagView};
use crate::partition::{PartitionKey, PartitionKeyView};
use crate::sorted_map;
use crate::sorted_map::{Duplicate, SortedMap};
use crate::text::join_three;
use crate::time;
use crate::time::Timestamp;
use crate::transactions;
use crate::transactions::{memory_transaction_id, require_partitions, touch_memory_producer};
use vstd::prelude::*;

verus! {

/// When a stored offset expires: never by itself where no retention time is given.
pub open spec fn expiry(commit_timestamp_ms: i64, retention_time_ms: Option<i64>) -> Result<Option<i64>, ControlErrorView> {
    match retention_time_ms {
        None => Ok(None),
        Some(retention) => if retention < 0 {
            Err(ControlErrorView::InvalidRequest("offset retention time must be non-negative"@))
        } else if commit_timestamp_ms + retention > i64::MAX {
            Err(ControlErrorView::InvalidRequest("offset retention time overflow"@))
        } else {
            Ok(Some((commit_timestamp_ms + retention) as i64))
        },
    }
}

pub fn offset_expire_timestamp(commit_timestamp_ms: i64, retention_time_ms: Option<i64>) -> (r: Result<Option<i64>, ControlError>)
    ensures
        error::outcome(r) == expiry(commit_timestamp_ms, retention_time_ms),
{
    let retention: i64 = match retention_time_ms {
        Some(retention) => retention,
        None => return Ok(None),
    };
    if retention < 0 {
        return Err(ControlError::InvalidRequest("offset retention time must be non-negative".to_owned()));
    }
    if commit_timestamp_ms > i64::MAX - retention {
        return Err(ControlError::InvalidRequest("offset retention time overflow".to_owned()));
    }
    Ok(Some(commit_timestamp_ms + retention))
}

/// Why the first of some offsets that cannot be stored cannot be.
pub open spec fn offsets_refusal(s: LogStateView, offsets: Seq<OffsetCommitView>) -> Option<ControlErrorView>
    decreases offsets.len(),
{
    if offsets.len() == 0 {
        None
    } else if offsets[0].offset < 0 {
        Some(ControlErrorView::InvalidRequest("committed offset must not be negative"@))
    } else if !s.partitions.contains_key(offsets[0].partition) {
        Some(log_reads::no_partition(offsets[0].partition))
    } else {
        offsets_refusal(s, offsets.drop_first())
    }
}

fn validate_offsets(state: &LogState, offsets: &Vec<OffsetCommit>) -> (r: Result<(), ControlError>)
    ensures
        error::outcome(r) == (match offsets_refusal(state.deep_view(), offsets.deep_view()) {
            Some(refusal) => Err(refusal),
            None => Ok(()),
        }),
{
    let ghost s = state.deep_view();
    let ghost all = offsets.deep_view();
    let mut i: usize = 0;
    assert(all.skip(0) =~= all);
    while i < offsets.len()
        invariant
            i <= offsets@.len(),
            s == state.deep_view(),
            all == offsets.deep_view(),
            offsets_refusal(s, all) == offsets_refusal(s, all.skip(i as int)),
        decreases offsets@.len() - i,
    {
        assert(all.skip(i as int)[0] == offsets@[i as int].deep_view());
        assert(all.skip(i as int).drop_first() =~= all.skip(i + 1));
        if offsets[i].offset < 0 {
            return Err(ControlError::InvalidRequest("committed offset must not be negative".to_owned()));
        }
        if !state.partitions.contains_key(&offsets[i].partition) {
            return Err(partition_not_found(&offsets[i].partition));
        }
        i = i + 1;
    }
    Ok(())
}

/// An offset as it is stored.
pub open spec fn stored_offset(commit: OffsetCommitView, now_ms: i64, expires: Option<i64>) -> CommittedOffsetView {
    CommittedOffsetView {
        offset: commit.offset,
        leader_epoch: commit.leader_epoch,
        metadata: commit.metadata,
        commit_timestamp_ms: now_ms,
        expire_timestamp_ms: expires,
    }
}

/// The offsets after those of a list have been stored one by one, up to the first whose retention
/// time is refused.
pub open spec fn offsets_stored(
    offsets: Map<(Seq<char>, PartitionKeyView), CommittedOffsetView>,
    group_id: Seq<char>,
    list: Seq<OffsetCommitView>,
    now_ms: i64,
) -> (Map<(Seq<char>, PartitionKeyView), CommittedOffsetView>, Result<(), ControlErrorView>)
    decreases list.len(),
{
    if list.len() == 0 {
        (offsets, Ok(()))
    } else {
        let (before, outcome) = offsets_stored(offsets, group_id, list.drop_last(), now_ms);
        match outcome {
            Err(refusal) => (before, Err(refusal)),
            Ok(_) => match expiry(now_ms, list.last().retention_time_ms) {
                Err(refusal) => (before, Err(refusal)),
                Ok(expires) => (
                    before.insert((group_id, list.last().partition), stored_offset(list.last(), now_ms, expires)),
                    Ok(()),
                ),
            },
        }
    }
}

/// Once an offset is refused, those after it are not looked at.
proof fn storing_ends_early(
    offsets: Map<(Seq<char>, PartitionKeyView), CommittedOffsetView>,
    group_id: Seq<char>,
    list: Seq<OffsetCommitView>,
    now_ms: i64,
    n: int,
)
    requires
        0 <= n <= list.len(),
        offsets_stored(offsets, group_id, list.take(n), now_ms).1 is Err,
    ensures
        offsets_stored(offsets, group_id, list, now_ms) == offsets_stored(offsets, group_id, list.take(n), now_ms),
    decreases list.len(),
{
    if n < list.len() {
        assert(list.drop_last().take(n) =~= list.take(n));
        storing_ends_early(offsets, group_id, list.drop_last(), now_ms, n);
    } else {
        assert(list.take(n) =~= list);
    }
}

fn store_offsets(
    offsets: &mut SortedMap<(String, PartitionKey), CommittedOffset>,
    group_id: &str,
    list: &Vec<OffsetCommit>,
    now_ms: i64,
) -> (r: Result<(), ControlError>)
    ensures
        (final(offsets).deep_view(), error::outcome(r)) == offsets_stored(old(offsets).deep_view(), group_id@, list.deep_view(), now_ms),
{
    let ghost m = offsets.deep_view();
    let ghost all = list.deep_view();
    let mut i: usize = 0;
    assert(all.take(0) =~= Seq::empty());
    while i < list.len()
        invariant
            i <= list@.len(),
            m == old(offsets).deep_view(),
            all == list.deep_view(),
            offsets_stored(m, group_id@, all.take(i as int), now_ms) == (offsets.deep_view(), Ok::<(), ControlErrorView>(())),
        decreases list@.len() - i,
    {
        proof {
            assert(all[i as int] == list@[i as int].deep_view());
            sorted_map::prefix_grows(all, i as int);
        }
        let commit = &list[i];
        let expires: Option<i64> = match offset_expire_timestamp(now_ms, commit.retention_time_ms) {
            Ok(expires) => expires,
            Err(refusal) => {
                proof {
                    storing_ends_early(m, group_id@, all, now_ms, i + 1);
                }
                return Err(refusal);
            },
        };
        offsets.insert(
            (group_id.to_owned(), commit.partition.duplicate()),
            CommittedOffset {
                offset: commit.offset,
                leader_epoch: commit.leader_epoch,
                metadata: commit.metadata.duplicate(),
                commit_timestamp_ms: now_ms,
                expire_timestamp_ms: expires,
            },
        );
        i = i + 1;
    }
    assert(all.take(i as int) =~= all);
    Ok(())
}

/// The state after a group has stored offsets.
pub open spec fn offsets_committed(s: LogStateView, group_id: Seq<char>, offsets: Seq<OffsetCommitView>, now_ms: i64) -> (
    LogStateView,
    Result<(), ControlErrorView>,
) {
    if group_id.len() == 0 {
        (s, Err(ControlErrorView::InvalidRequest("group id must not be empty"@)))
    } else {
        match offsets_refusal(s, offsets) {
            Some(refusal) => (s, Err(refusal)),
            None => {
                let (after, outcome) = offsets_stored(s.offsets, group_id, offsets, now_ms);
                (LogStateView { offsets: after, ..s }, outcome)
            },
        }
    }
}

/// What is said of a group that is no part of a transaction.
pub open spec fn group_not_added(group_id: Seq<char>) -> ControlErrorView {
    ControlErrorView::InvalidTransactionState("group "@ + group_id + " was not added to the transaction"@)
}

/// The state after a group has stored offsets in a transaction.
pub open spec fn offsets_in_transaction(
    s: LogStateView,
    transactional_id: Seq<char>,
    producer: ProducerSession,
    group_id: Seq<char>,
    add_group: bool,
    offsets: Seq<OffsetCommitView>,
    fresh: u128,
    now: int,
) -> (LogStateView, Result<(), ControlErrorView>) {
    let now_ms = time::whole_millis(now) as i64;
    match offsets_refusal(s, offsets) {
        Some(refusal) => (s, Err(refusal)),
        None => {
            let (at_hand, id) = transactions::transaction_at_hand(s, transactional_id, producer, add_group, false, fresh, now);
            match id {
                Err(refusal) => (at_hand, Err(refusal)),
                Ok(id) => {
                    let transaction = at_hand.transactions[id];
                    let groups = if add_group {
                        transaction.groups.insert(group_id, ())
                    } else {
                        transaction.groups
                    };
                    if !groups.contains_key(group_id) {
                        (at_hand, Err(group_not_added(group_id)))
                    } else {
                        let (held, outcome) = offsets_stored(transaction.offsets, group_id, offsets, now_ms);
                        let after = LogStateView {
                            transactions: at_hand.transactions.insert(
                                id,
                                MemoryTransactionView { groups, offsets: held, ..transaction },
                            ),
                            ..at_hand
                        };
                        match outcome {
                            Err(refusal) => (after, Err(refusal)),
                            Ok(_) => (
                                LogStateView {
                                    producers: transactions::touched(after.producers, producer.producer_id, now_ms),
                                    ..after
                                },
                                Ok(()),
                            ),
                        }
                    }
                },
            }
        },
    }
}

/// The stored offsets of a group for the partitions of a list.
pub open spec fn offsets_of(s: LogStateView, group_id: Seq<char>, partitions: Seq<PartitionKeyView>) -> Map<
    PartitionKeyView,
    CommittedOffsetView,
> {
    Map::new(
        |p: PartitionKeyView| partitions.contains(p) && s.offsets.contains_key((group_id, p)),
        |p: PartitionKeyView| s.offsets[(group_id, p)],
    )
}

/// The stored offsets of partitions that exist.
pub open spec fn placed_offsets(s: LogStateView) -> Map<(Seq<char>, PartitionKeyView), CommittedOffsetView> {
    sorted_map::filtered(
        s.offsets,
        |key: (Seq<char>, PartitionKeyView), offset: CommittedOffsetView| s.partitions.contains_key(key.1),
    )
}

/// How far groups are behind, for the first `limit` stored offsets.
pub open spec fn lags(s: LogStateView, limit: nat) -> Seq<ConsumerLagView> {
    let keys = sorted_map::sorted_keys::<(String, PartitionKey)>(placed_offsets(s).dom());
    let n = if limit < keys.len() {
        limit
    } else {
        keys.len()
    };
    Seq::new(
        n,
        |i: int|
            {
                let committed = s.offsets[keys[i]].offset;
                let end = s.partitions[keys[i].1].next_offset;
                ConsumerLagView {
                    group_id: keys[i].0,
                    partition: keys[i].1,
                    committed_offset: committed,
                    high_watermark: end,
                    lag: if end < committed {
                        0i64
                    } else {
                        (end - committed) as i64
                    },
                }
            },
    )
}

/// Whether no group is further behind the end of a log than can be counted.
pub open spec fn lags_fit(s: LogStateView) -> bool {
    forall|key: (Seq<char>, PartitionKeyView)| #[trigger]
        s.offsets.contains_key(key) && s.partitions.contains_key(key.1) ==> s.partitions[key.1].next_offset - s.offsets[key].offset
            <= i64::MAX
}

impl LogState {
    /// Stores offsets of a group.
    pub fn commit_offsets(&mut self, group_id: &str, offsets: Vec<OffsetCommit>, now_ms: i64) -> (r: Result<(), ControlError>)
        ensures
            (final(self).deep_view(), error::outcome(r)) == offsets_committed(
                old(self).deep_view(),
                group_id@,
                offsets.deep_view(),
                now_ms,
            ),
    {
        if group_id.is_empty() {
            return Err(ControlError::InvalidRequest("group id must not be empty".to_owned()));
        }
        match validate_offsets(self, &offsets) {
            Ok(_) => {},
            Err(refusal) => return Err(refusal),
        }
        store_offsets(&mut self.offsets, group_id, &offsets, now_ms)
    }

    /// Stores offsets of a group in the transaction of a producer.
    pub fn commit_transaction_offsets(
        &mut self,
        transactional_id: &str,
        producer: ProducerSession,
        group_id: &str,
        add_group: bool,
        offsets: Vec<OffsetCommit>,
        fresh: u128,
        now: Timestamp,
    ) -> (r: Result<(), ControlError>)
        ensures
            (final(self).deep_view(), error::outcome(r)) == offsets_in_transaction(
                old(self).deep_view(),
                transactional_id@,
                producer,
                group_id@,
                add_group,
                offsets.deep_view(),
                fresh,
                now.deep_view(),
            ),
    {
        match validate_offsets(self, &offsets) {
            Ok(_) => {},
            Err(refusal) => return Err(refusal),
        }
        let id: u128 = match memory_transaction_id(self, transactional_id, producer, add_group, false, fresh, now) {
            Ok(id) => id,
            Err(refusal) => return Err(refusal),
        };
        let ghost s = self.deep_view();
        let key = group_id.to_owned();
        let joined = add_group || match self.transactions.get(&id) {
            Some(transaction) => transaction.groups.contains_key(&key),
            None => false,
        };
        if !joined {
            return Err(
                ControlError::InvalidTransactionState(join_three("group ", group_id, " was not added to the transaction")),
            );
        }
        let mut transaction = self.transactions.remove(&id).unwrap();
        if add_group {
            transaction.groups.insert(key, ());
        }
        let stored = store_offsets(&mut transaction.offsets, group_id, &offsets, now.millis());
        let ghost after = transaction.deep_view();
        self.transactions.insert(id, transaction);
        assert(s.transactions.remove(id).insert(id, after) =~= s.transactions.insert(id, after));
        match stored {
            Ok(_) => {},
            Err(refusal) => return Err(refusal),
        }
        touch_memory_producer(&mut self.producers, producer.producer_id, now.millis());
        Ok(())
    }

    /// The stored offsets of a group.
    pub fn fetch_offsets(&self, group_id: &str, partitions: &[PartitionKey]) -> (r: Result<
        SortedMap<PartitionKey, CommittedOffset>,
        ControlError,
    >)
        ensures
            error::outcome(r) == (match transactions::first_missing(self.deep_view(), sorted_map::models(partitions@)) {
                Some(p) => Err(log_reads::no_partition(p)),
                None => Ok(offsets_of(self.deep_view(), group_id@, sorted_map::models(partitions@))),
            }),
    {
        match require_partitions(self, partitions) {
            Ok(_) => {},
            Err(refusal) => return Err(refusal),
        }
        let ghost s = self.deep_view();
        let ghost all = sorted_map::models(partitions@);
        let mut r: SortedMap<PartitionKey, CommittedOffset> = SortedMap::new();
        let mut i: usize = 0;
        while i < partitions.len()
            invariant
                i <= partitions@.len(),
                s == self.deep_view(),
                all == sorted_map::models(partitions@),
                forall|p: PartitionKeyView| #[trigger] r.deep_view().contains_key(p) <==> all.take(i as int).to_set().contains(p)
                    && s.offsets.contains_key((group_id@, p)),
                forall|p: PartitionKeyView| #[trigger] r.deep_view().contains_key(p) ==> r.deep_view()[p] == s.offsets[(group_id@, p)],
            decreases partitions@.len() - i,
        {
            proof {
                assert(all[i as int] == partitions@[i as int].deep_view());
                sorted_map::prefix_grows(all, i as int);
            }
            if let Some(offset) = self.offsets.get(&(group_id.to_owned(), partitions[i].duplicate())) {
                r.insert(partitions[i].duplicate(), offset.duplicate());
            }
            i = i + 1;
        }
        assert(all.take(i as int) =~= all);
        assert(r.deep_view() =~= offsets_of(s, group_id@, all));
        Ok(r)
    }

    /// How far groups are behind the ends of logs.
    pub fn consumer_lags(&self, limit: usize) -> (r: Vec<ConsumerLag>)
        requires
            lags_fit(self.deep_view()),
        ensures
            r.deep_view() == lags(self.deep_view(), limit as nat),
    {
        let ghost s = self.deep_view();
        let ghost placed = |key: (Seq<char>, PartitionKeyView), offset: CommittedOffsetView| s.partitions.contains_key(key.1);
        let partitions = &self.partitions;
        let test = |key: &(String, PartitionKey), offset: &CommittedOffset| -> (b: bool)
            ensures b == placed(key.deep_view(), offset.deep_view())
        {
            partitions.contains_key(&key.1)
        };
        let keys = self.offsets.keys_where(test, Ghost(placed));
        let ghost all = keys.deep_view();
        assert(sorted_map::filtered(s.offsets, placed) == placed_offsets(s));
        let mut r: Vec<ConsumerLag> = Vec::new();
        let mut i: usize = 0;
        while i < keys.len() && i < limit
            invariant
                i <= keys@.len(),
                i <= limit,
                r@.len() == i,
                s == self.deep_view(),
                lags_fit(s),
                all == keys.deep_view(),
                all.to_set() == placed_offsets(s).dom(),
                all == sorted_map::sorted_keys::<(String, PartitionKey)>(placed_offsets(s).dom()),
                forall|j: int| 0 <= j < i ==> (#[trigger] r@[j]).deep_view() == lags(s, limit as nat)[j],
            decreases keys@.len() - i,
        {
            proof {
                assert(all[i as int] == keys@[i as int].deep_view());
                assert(all.to_set().contains(all[i as int]));
                assert(placed_offsets(s).contains_key(all[i as int]));
                assert(s.offsets.contains_key(all[i as int]));
                assert(s.partitions.contains_key(all[i as int].1));
            }
            let committed: i64 = self.offsets.get(&keys[i]).unwrap().offset;
            let end: i64 = self.partitions.get(&keys[i].1).unwrap().next_offset;
            let lag: i64 = if end < committed {
                0
            } else {
                end - committed
            };
            r.push(
                ConsumerLag {
                    group_id: keys[i].0.clone(),
                    partition: keys[i].1.duplicate(),
                    committed_offset: committed,
                    high_watermark: end,
                    lag,
                },
            );
            i = i + 1;
        }
        assert(r.deep_view() =~= lags(s, limit as nat));
        r
    }
}

} // verus!
