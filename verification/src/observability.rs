//! What is told of logs, of producers and of how far readers have come.

use crate::error;
use crate::error::ControlError;
use crate::log_reads;
use crate::log_reads::{partition_not_found, transaction_is_ongoing};
use crate::log_types::{
    ActiveProducer, ActiveProducerView, LogState, LogStateView, MemoryPartition, MemoryPartitionView, MemoryProducer,
    MemoryProducerView, StoredSpan, StoredSpanView, TransactionState,
};
use crate::numbers;
use crate::numbers::saturating_sum;
use crate::partition::{PartitionKey, PartitionKeyView};
use crate::sorted_map;
use crate::sorted_map::Duplicate;
use vstd::prelude::*;

verus! {

/// How far a group is behind the end of a partition.
#[derive(Debug, Clone, PartialEq, Eq)]
pub struct ConsumerLag {
    pub group_id: String,
    pub partition: PartitionKey,
    pub committed_offset: i64,
    pub high_watermark: i64,
    pub lag: i64,
}

/// The model of [`ConsumerLag`].
pub struct ConsumerLagView {
    pub group_id: Seq<char>,
    pub partition: PartitionKeyView,
    pub committed_offset: i64,
    pub high_watermark: i64,
    pub lag: i64,
}

impl DeepView for ConsumerLag {
    type V = ConsumerLagView;

    open spec fn deep_view(&self) -> ConsumerLagView {
        ConsumerLagView {
            group_id: self.group_id@,
            partition: self.partition.deep_view(),
            committed_offset: self.committed_offset,
            high_watermark: self.high_watermark,
            lag: self.lag,
        }
    }
}

/// The size of a partition's log beside the size it is allowed.
#[derive(Debug, Clone, PartialEq, Eq)]
pub struct PartitionRetentionSize {
    pub partition: PartitionKey,
    pub size_bytes: i64,
    pub retention_bytes: i64,
}

/// The model of [`PartitionRetentionSize`].
pub struct PartitionRetentionSizeView {
    pub partition: PartitionKeyView,
    pub size_bytes: i64,
    pub retention_bytes: i64,
}

impl DeepView for PartitionRetentionSize {
    type V = PartitionRetentionSizeView;

    open spec fn deep_view(&self) -> PartitionRetentionSizeView {
        PartitionRetentionSizeView {
            partition: self.partition.deep_view(),
            size_bytes: self.size_bytes,
            retention_bytes: self.retention_bytes,
        }
    }
}

impl PartitionRetentionSize {
    /// The share of the allowed size that is used, in whole percent.
    pub fn percent(&self) -> (r: i64)
        ensures
            r == used_percent(self.size_bytes as int, self.retention_bytes as int),
    {
        if self.size_bytes <= 0 || self.retention_bytes <= 0 {
            return 0;
        }
        let percent: u128 = (self.size_bytes as u128 * 100) / self.retention_bytes as u128;
        if percent > i64::MAX as u128 {
            i64::MAX
        } else {
            percent as i64
        }
    }
}

/// How many whole percent `size` is of `allowed`: none where either is not positive.
pub open spec fn used_percent(size: int, allowed: int) -> int {
    if size <= 0 || allowed <= 0 {
        0
    } else {
        numbers::clamped_i64(size * 100 / allowed)
    }
}

/// How many transactional ids are in each state.
#[derive(Debug, Clone, Copy, PartialEq, Eq, Structural)]
pub struct TransactionStateCounts {
    pub empty: i64,
    pub ongoing: i64,
    pub complete_commit: i64,
    pub complete_abort: i64,
}

/// The counts with one more id in `state`.
pub open spec fn counted(counts: TransactionStateCounts, state: TransactionState) -> TransactionStateCounts {
    match state {
        TransactionState::Empty => TransactionStateCounts { empty: (counts.empty + 1) as i64, ..counts },
        TransactionState::Ongoing => TransactionStateCounts { ongoing: (counts.ongoing + 1) as i64, ..counts },
        TransactionState::CompleteCommit => TransactionStateCounts { complete_commit: (counts.complete_commit + 1) as i64, ..counts },
        TransactionState::CompleteAbort => TransactionStateCounts { complete_abort: (counts.complete_abort + 1) as i64, ..counts },
    }
}

impl Default for TransactionStateCounts {
    fn default() -> (r: Self)
        ensures
            r == (TransactionStateCounts { empty: 0, ongoing: 0, complete_commit: 0, complete_abort: 0 }),
    {
        TransactionStateCounts { empty: 0, ongoing: 0, complete_commit: 0, complete_abort: 0 }
    }
}

impl TransactionStateCounts {
    /// Counts one more id.
    pub fn record(&mut self, state: TransactionState)
        requires
            old(self).empty < i64::MAX,
            old(self).ongoing < i64::MAX,
            old(self).complete_commit < i64::MAX,
            old(self).complete_abort < i64::MAX,
        ensures
            *final(self) == counted(*old(self), state),
    {
        match state {
            TransactionState::Empty => {
                self.empty = self.empty + 1;
            },
            TransactionState::Ongoing => {
                self.ongoing = self.ongoing + 1;
            },
            TransactionState::CompleteCommit => {
                self.complete_commit = self.complete_commit + 1;
            },
            TransactionState::CompleteAbort => {
                self.complete_abort = self.complete_abort + 1;
            },
        }
    }
}

/// The bytes of a span, none where they end before they start.
pub open spec fn held_bytes(span: StoredSpanView) -> int {
    if span.byte_end < span.byte_start {
        0
    } else {
        span.byte_end - span.byte_start
    }
}

/// The bytes of some spans.
pub open spec fn total_bytes(spans: Seq<StoredSpanView>) -> int
    decreases spans.len(),
{
    if spans.len() == 0 {
        0
    } else {
        total_bytes(spans.drop_last()) + held_bytes(spans.last())
    }
}

/// The bytes of some spans, as far as they can be counted.
pub open spec fn log_size(spans: Seq<StoredSpanView>) -> i64 {
    numbers::clamped_i64(total_bytes(spans)) as i64
}

fn measure(spans: &Vec<StoredSpan>) -> (r: i64)
    ensures
        r == log_size(spans.deep_view()),
{
    let ghost all = spans.deep_view();
    let mut total: i64 = 0;
    let mut i: usize = 0;
    assert(all.take(0) =~= Seq::empty());
    while i < spans.len()
        invariant
            i <= spans@.len(),
            all == spans.deep_view(),
            total == log_size(all.take(i as int)),
            total_bytes(all.take(i as int)) >= 0,
        decreases spans@.len() - i,
    {
        proof {
            sorted_map::prefix_grows(all, i as int);
            assert(all[i as int] == spans@[i as int].deep_view());
        }
        let size: u64 = if spans[i].byte_end < spans[i].byte_start {
            0
        } else {
            spans[i].byte_end - spans[i].byte_start
        };
        let size: i64 = if size > i64::MAX as u64 {
            i64::MAX
        } else {
            size as i64
        };
        total = saturating_sum(total, size);
        i = i + 1;
    }
    assert(all.take(i as int) =~= all);
    total
}

/// The base offset of the first span of some that is at least as young as `timestamp_ms`.
pub open spec fn first_since(spans: Seq<StoredSpanView>, timestamp_ms: i64) -> Option<i64>
    decreases spans.len(),
{
    if spans.len() == 0 {
        None
    } else if spans[0].timestamp_ms >= timestamp_ms {
        Some(spans[0].base_offset)
    } else {
        first_since(spans.drop_first(), timestamp_ms)
    }
}

/// Stands for the start of a log in the place of a time.
pub const EARLIEST: i64 = -2;

/// Stands for the end of a log in the place of a time.
pub const LATEST: i64 = -1;

/// The offset of the first record since a time, or an end of the log.
pub open spec fn offset_at(log: MemoryPartitionView, timestamp_ms: i64) -> i64 {
    if timestamp_ms == EARLIEST {
        log.log_start_offset
    } else if timestamp_ms == LATEST {
        log.next_offset
    } else {
        match first_since(log.spans, timestamp_ms) {
            Some(offset) => offset,
            None => log.next_offset,
        }
    }
}

/// The partitions of topics that have a configuration.
pub open spec fn configured(s: LogStateView) -> Map<PartitionKeyView, MemoryPartitionView> {
    sorted_map::filtered(s.partitions, |p: PartitionKeyView, log: MemoryPartitionView| s.topic_configs.contains_key(p.topic))
}

/// The sizes of the first `limit` logs of configured topics, with the sizes they are allowed.
pub open spec fn retention_sizes(s: LogStateView, limit: nat) -> Seq<PartitionRetentionSizeView> {
    let keys = sorted_map::sorted_keys::<PartitionKey>(configured(s).dom());
    let n = if limit < keys.len() {
        limit
    } else {
        keys.len()
    };
    Seq::new(
        n,
        |i: int|
            PartitionRetentionSizeView {
                partition: keys[i],
                size_bytes: log_size(s.partitions[keys[i]].spans),
                retention_bytes: s.topic_configs[keys[i].topic].retention_bytes,
            },
    )
}

/// Whether a span belongs to a transaction and was written by a producer.
pub open spec fn written_in(span: StoredSpanView, transaction: u128, producer_id: i64) -> bool {
    span.transaction_id == Some(transaction) && span.producer is Some && span.producer->0.producer_id == producer_id
}

/// The smallest base offset of the spans that a producer wrote in a transaction.
pub open spec fn first_written_in(spans: Seq<StoredSpanView>, transaction: u128, producer_id: i64) -> Option<i64>
    decreases spans.len(),
{
    if spans.len() == 0 {
        None
    } else {
        let before = first_written_in(spans.drop_last(), transaction, producer_id);
        let base = spans.last().base_offset;
        if !written_in(spans.last(), transaction, producer_id) {
            before
        } else {
            match before {
                None => Some(base),
                Some(least) => Some(if base < least { base } else { least }),
            }
        }
    }
}

/// Where the open transaction of a producer begins in a log: `-1` where there is none.
pub open spec fn transaction_start(s: LogStateView, spans: Seq<StoredSpanView>, producer_id: i64) -> i64 {
    match s.producers[producer_id].current_transaction_id {
        None => -1i64,
        Some(id) => if log_reads::is_ongoing(s.transactions, id) {
            match first_written_in(spans, id, producer_id) {
                None => -1i64,
                Some(start) => start,
            }
        } else {
            -1i64
        },
    }
}

/// The producers that a partition remembers.
pub open spec fn known_producers(s: LogStateView, p: PartitionKeyView) -> Map<i64, MemoryProducerView> {
    sorted_map::filtered(s.producers, |id: i64, producer: MemoryProducerView| producer.sequences.contains_key(p))
}

/// The producers that a partition remembers, in the order of their ids.
pub open spec fn active_producers(s: LogStateView, p: PartitionKeyView) -> Seq<ActiveProducerView> {
    let ids = sorted_map::sorted_keys::<i64>(known_producers(s, p).dom());
    Seq::new(
        ids.len(),
        |i: int|
            ActiveProducerView {
                producer_id: ids[i],
                producer_epoch: s.producers[ids[i]].sequences[p].epoch,
                last_sequence: s.producers[ids[i]].sequences[p].last_sequence,
                last_timestamp: s.producers[ids[i]].sequences[p].last_timestamp,
                current_transaction_start_offset: transaction_start(s, s.partitions[p].spans, ids[i]),
            },
    )
}

fn find_written_in(spans: &Vec<StoredSpan>, transaction: u128, producer_id: i64) -> (r: Option<i64>)
    ensures
        r == first_written_in(spans.deep_view(), transaction, producer_id),
{
    let ghost all = spans.deep_view();
    let mut r: Option<i64> = None;
    let mut i: usize = 0;
    assert(all.take(0) =~= Seq::empty());
    while i < spans.len()
        invariant
            i <= spans@.len(),
            all == spans.deep_view(),
            r == first_written_in(all.take(i as int), transaction, producer_id),
        decreases spans@.len() - i,
    {
        proof {
            sorted_map::prefix_grows(all, i as int);
            assert(all[i as int] == spans@[i as int].deep_view());
        }
        let base: i64 = spans[i].base_offset;
        let in_transaction = match spans[i].transaction_id {
            Some(id) => id == transaction,
            None => false,
        };
        let of_producer = match spans[i].producer {
            Some(batch) => batch.producer_id == producer_id,
            None => false,
        };
        if in_transaction && of_producer {
            r = match r {
                None => Some(base),
                Some(least) => Some(if base < least { base } else { least }),
            };
        }
        i = i + 1;
    }
    assert(all.take(i as int) =~= all);
    r
}

impl LogState {
    /// The offset of the first record since a time, or an end of the log.
    pub fn list_offset(&self, partition: &PartitionKey, timestamp_ms: i64) -> (r: Result<i64, ControlError>)
        ensures
            error::outcome(r) == (if self.deep_view().partitions.contains_key(partition.deep_view()) {
                Ok(offset_at(self.deep_view().partitions[partition.deep_view()], timestamp_ms))
            } else {
                Err(log_reads::no_partition(partition.deep_view()))
            }),
    {
        let log = match self.partitions.get(partition) {
            Some(log) => log,
            None => return Err(partition_not_found(partition)),
        };
        if timestamp_ms == EARLIEST {
            return Ok(log.log_start_offset);
        }
        if timestamp_ms == LATEST {
            return Ok(log.next_offset);
        }
        let ghost all = log.spans.deep_view();
        let mut i: usize = 0;
        assert(all.skip(0) =~= all);
        while i < log.spans.len()
            invariant
                i <= log.spans@.len(),
                all == log.spans.deep_view(),
                timestamp_ms != EARLIEST,
                timestamp_ms != LATEST,
                self.deep_view().partitions.contains_key(partition.deep_view()),
                log.deep_view() == self.deep_view().partitions[partition.deep_view()],
                first_since(all, timestamp_ms) == first_since(all.skip(i as int), timestamp_ms),
            decreases log.spans@.len() - i,
        {
            assert(all.skip(i as int)[0] == log.spans@[i as int].deep_view());
            assert(all.skip(i as int).drop_first() =~= all.skip(i + 1));
            if log.spans[i].timestamp_ms >= timestamp_ms {
                return Ok(log.spans[i].base_offset);
            }
            i = i + 1;
        }
        Ok(log.next_offset)
    }

    /// The bytes that a partition's log holds.
    pub fn partition_size(&self, partition: &PartitionKey) -> (r: Result<i64, ControlError>)
        ensures
            error::outcome(r) == (if self.deep_view().partitions.contains_key(partition.deep_view()) {
                Ok(log_size(self.deep_view().partitions[partition.deep_view()].spans))
            } else {
                Err(log_reads::no_partition(partition.deep_view()))
            }),
    {
        match self.partitions.get(partition) {
            Some(log) => Ok(measure(&log.spans)),
            None => Err(partition_not_found(partition)),
        }
    }

    /// The sizes of logs beside the sizes they are allowed.
    pub fn partition_retention_sizes(&self, limit: usize) -> (r: Vec<PartitionRetentionSize>)
        ensures
            r.deep_view() == retention_sizes(self.deep_view(), limit as nat),
    {
        let ghost s = self.deep_view();
        let ghost has_config = |p: PartitionKeyView, log: MemoryPartitionView| s.topic_configs.contains_key(p.topic);
        let configs = &self.topic_configs;
        let test = |p: &PartitionKey, log: &MemoryPartition| -> (b: bool)
            ensures b == has_config(p.deep_view(), log.deep_view())
        {
            configs.contains_key(&p.topic)
        };
        let keys = self.partitions.keys_where(test, Ghost(has_config));
        let ghost all = keys.deep_view();
        assert(sorted_map::filtered(s.partitions, has_config) == configured(s));
        let mut r: Vec<PartitionRetentionSize> = Vec::new();
        let mut i: usize = 0;
        while i < keys.len() && i < limit
            invariant
                i <= keys@.len(),
                i <= limit,
                r@.len() == i,
                s == self.deep_view(),
                all == keys.deep_view(),
                all.to_set() == configured(s).dom(),
                all == sorted_map::sorted_keys::<PartitionKey>(configured(s).dom()),
                forall|j: int| 0 <= j < i ==> (#[trigger] r@[j]).deep_view() == retention_sizes(s, limit as nat)[j],
            decreases keys@.len() - i,
        {
            assert(all[i as int] == keys@[i as int].deep_view());
            assert(all.to_set().contains(all[i as int]));
            let log = self.partitions.get(&keys[i]).unwrap();
            let config = self.topic_configs.get(&keys[i].topic).unwrap();
            r.push(
                PartitionRetentionSize {
                    partition: keys[i].duplicate(),
                    size_bytes: measure(&log.spans),
                    retention_bytes: config.retention_bytes,
                },
            );
            i = i + 1;
        }
        assert(r.deep_view() =~= retention_sizes(s, limit as nat));
        r
    }

    /// The producers that a partition remembers.
    pub fn describe_producers(&self, partition: &PartitionKey) -> (r: Result<Vec<ActiveProducer>, ControlError>)
        ensures
            error::outcome(r) == (if self.deep_view().partitions.contains_key(partition.deep_view()) {
                Ok(active_producers(self.deep_view(), partition.deep_view()))
            } else {
                Err(log_reads::no_partition(partition.deep_view()))
            }),
    {
        let ghost s = self.deep_view();
        let ghost p = partition.deep_view();
        let log = match self.partitions.get(partition) {
            Some(log) => log,
            None => return Err(partition_not_found(partition)),
        };
        let ghost known = |id: i64, producer: MemoryProducerView| producer.sequences.contains_key(p);
        let test = |id: &i64, producer: &MemoryProducer| -> (b: bool)
            ensures b == known(id.deep_view(), producer.deep_view())
        {
            producer.sequences.contains_key(partition)
        };
        let ids = self.producers.keys_where(test, Ghost(known));
        let ghost all = ids.deep_view();
        assert(sorted_map::filtered(s.producers, known) == known_producers(s, p));
        let mut r: Vec<ActiveProducer> = Vec::new();
        let mut i: usize = 0;
        while i < ids.len()
            invariant
                i <= ids@.len(),
                r@.len() == i,
                s == self.deep_view(),
                p == partition.deep_view(),
                s.partitions.contains_key(p),
                log.deep_view() == s.partitions[p],
                all == ids.deep_view(),
                all.to_set() == known_producers(s, p).dom(),
                all == sorted_map::sorted_keys::<i64>(known_producers(s, p).dom()),
                forall|j: int| 0 <= j < i ==> (#[trigger] r@[j]).deep_view() == active_producers(s, p)[j],
            decreases ids@.len() - i,
        {
            let id: i64 = ids[i];
            assert(all[i as int] == ids@[i as int].deep_view());
            assert(all.to_set().contains(all[i as int]));
            let producer = self.producers.get(&id).unwrap();
            let sequence = producer.sequences.get(partition).unwrap();
            let start: i64 = match producer.current_transaction_id {
                None => -1,
                Some(transaction) => if transaction_is_ongoing(&self.transactions, transaction) {
                    match find_written_in(&log.spans, transaction, id) {
                        None => -1,
                        Some(start) => start,
                    }
                } else {
                    -1
                },
            };
            r.push(
                ActiveProducer {
                    producer_id: id,
                    producer_epoch: sequence.epoch,
                    last_sequence: sequence.last_sequence,
                    last_timestamp: sequence.last_timestamp,
                    current_transaction_start_offset: start,
                },
            );
            i = i + 1;
        }
        assert(r.deep_view() =~= active_producers(s, p));
        Ok(r)
    }
}

} // verus!
