//! What readers of a partition see.

use crate::error;
use crate::error::{ControlError, ControlErrorView};
use crate::log_types::{
    FetchIsolation, LogState, LogStateView, MemoryPartition, MemoryPartitionView, MemoryTransaction,
    MemoryTransactionView, PartitionFetch, PartitionFetchView, PartitionWatermarks, StoredSpan, StoredSpanView,
    TransactionStatus,
};
use crate::partition::{PartitionKey, PartitionKeyView};
use crate::sorted_map;
use crate::sorted_map::{Duplicate, SortedMap};
use vstd::prelude::*;

verus! {

/// Whether a transaction is open.
pub open spec fn is_ongoing(transactions: Map<u128, MemoryTransactionView>, id: u128) -> bool {
    transactions.contains_key(id) && transactions[id].status == TransactionStatus::Ongoing
}

/// Whether a span belongs to an open transaction.
pub open spec fn is_open(transactions: Map<u128, MemoryTransactionView>, span: StoredSpanView) -> bool {
    span.transaction_id is Some && is_ongoing(transactions, span.transaction_id->0)
}

/// The smallest offset that an open transaction wrote.
pub open spec fn first_open(transactions: Map<u128, MemoryTransactionView>, spans: Seq<StoredSpanView>) -> Option<i64>
    decreases spans.len(),
{
    if spans.len() == 0 {
        None
    } else {
        let before = first_open(transactions, spans.drop_last());
        let base = spans.last().base_offset;
        if !is_open(transactions, spans.last()) {
            before
        } else {
            match before {
                None => Some(base),
                Some(least) => Some(if base < least { base } else { least }),
            }
        }
    }
}

pub(crate) fn transaction_is_ongoing(transactions: &SortedMap<u128, MemoryTransaction>, id: u128) -> (r: bool)
    ensures
        r == is_ongoing(transactions.deep_view(), id),
{
    match transactions.get(&id) {
        Some(transaction) => transaction.status == TransactionStatus::Ongoing,
        None => false,
    }
}

pub(crate) fn span_is_open(transactions: &SortedMap<u128, MemoryTransaction>, span: &StoredSpan) -> (r: bool)
    ensures
        r == is_open(transactions.deep_view(), span.deep_view()),
{
    match span.transaction_id {
        Some(id) => transaction_is_ongoing(transactions, id),
        None => false,
    }
}

pub(crate) fn find_first_open(transactions: &SortedMap<u128, MemoryTransaction>, spans: &Vec<StoredSpan>) -> (r: Option<i64>)
    ensures
        r == first_open(transactions.deep_view(), spans.deep_view()),
{
    let ghost all = spans.deep_view();
    let mut r: Option<i64> = None;
    let mut i: usize = 0;
    assert(all.take(0) =~= Seq::empty());
    while i < spans.len()
        invariant
            i <= spans@.len(),
            all == spans.deep_view(),
            r == first_open(transactions.deep_view(), all.take(i as int)),
        decreases spans@.len() - i,
    {
        proof {
            sorted_map::prefix_grows(all, i as int);
            assert(all[i as int] == spans@[i as int].deep_view());
        }
        if span_is_open(transactions, &spans[i]) {
            let base: i64 = spans[i].base_offset;
            r = match r {
                None => Some(base),
                Some(least) => Some(if base < least { base } else { least }),
            };
        }
        i = i + 1;
    }
    assert(all.take(i as int) =~= all);
    r
}

/// The offsets that bound what readers of a log see.
pub open spec fn watermarks(transactions: Map<u128, MemoryTransactionView>, log: MemoryPartitionView) -> PartitionWatermarks {
    PartitionWatermarks {
        high_watermark: log.next_offset,
        last_stable_offset: match first_open(transactions, log.spans) {
            Some(offset) => offset,
            None => log.next_offset,
        },
        log_start_offset: log.log_start_offset,
    }
}

fn memory_partition_watermarks(transactions: &SortedMap<u128, MemoryTransaction>, log: &MemoryPartition) -> (r: PartitionWatermarks)
    ensures
        r == watermarks(transactions.deep_view(), log.deep_view()),
{
    PartitionWatermarks {
        high_watermark: log.next_offset,
        last_stable_offset: match find_first_open(transactions, &log.spans) {
            Some(offset) => offset,
            None => log.next_offset,
        },
        log_start_offset: log.log_start_offset,
    }
}

/// What is said of a partition that does not exist.
pub open spec fn no_partition(p: PartitionKeyView) -> ControlErrorView {
    ControlErrorView::PartitionNotFound { topic: p.topic, partition: p.partition }
}

pub(crate) fn partition_not_found(partition: &PartitionKey) -> (r: ControlError)
    ensures
        r.deep_view() == no_partition(partition.deep_view()),
{
    ControlError::PartitionNotFound { topic: partition.topic.clone(), partition: partition.partition }
}

/// Whether a reader of committed records may see a span.
pub open spec fn is_visible(transactions: Map<u128, MemoryTransactionView>, span: StoredSpanView) -> bool {
    match span.transaction_id {
        None => true,
        Some(id) => transactions.contains_key(id) && transactions[id].status == TransactionStatus::Committed,
    }
}

/// The bytes of a span.
pub open spec fn span_size(span: StoredSpanView) -> int {
    span.byte_end - span.byte_start
}

/// The bytes of some spans.
pub open spec fn bytes_of(spans: Seq<StoredSpanView>) -> int
    decreases spans.len(),
{
    if spans.len() == 0 {
        0
    } else {
        bytes_of(spans.drop_last()) + span_size(spans.last())
    }
}

/// What a fetch takes from the spans of a log from place `i` on, when it has taken `taken`: spans
/// that end before `offset` and, for readers of committed records, spans that they may not see are
/// passed over; the fetch ends where open transactions begin, or where one more span would pass
/// `max_bytes`. The first span is taken whatever its size.
pub open spec fn fetched(
    transactions: Map<u128, MemoryTransactionView>,
    spans: Seq<StoredSpanView>,
    i: int,
    taken: Seq<StoredSpanView>,
    offset: i64,
    max_bytes: int,
    committed_before: Option<i64>,
) -> Seq<StoredSpanView>
    decreases spans.len() - i,
{
    if i < 0 || i >= spans.len() {
        taken
    } else if spans[i].last_offset < offset {
        fetched(transactions, spans, i + 1, taken, offset, max_bytes, committed_before)
    } else if committed_before is Some && spans[i].base_offset >= committed_before->0 {
        taken
    } else if committed_before is Some && !is_visible(transactions, spans[i]) {
        fetched(transactions, spans, i + 1, taken, offset, max_bytes, committed_before)
    } else if taken.len() > 0 && bytes_of(taken) + span_size(spans[i]) > max_bytes {
        taken
    } else {
        fetched(transactions, spans, i + 1, taken.push(spans[i]), offset, max_bytes, committed_before)
    }
}

/// What a fetch finds.
pub open spec fn fetch_outcome(s: LogStateView, p: PartitionKeyView, offset: i64, max_bytes: int, isolation: FetchIsolation) -> Result<
    PartitionFetchView,
    ControlErrorView,
> {
    if !s.partitions.contains_key(p) {
        Err(no_partition(p))
    } else {
        let log = s.partitions[p];
        let marks = watermarks(s.transactions, log);
        if offset < marks.log_start_offset || offset > marks.high_watermark {
            Err(
                ControlErrorView::OffsetOutOfRange {
                    partition: p,
                    offset,
                    start: marks.log_start_offset,
                    end: marks.high_watermark,
                },
            )
        } else {
            Ok(
                PartitionFetchView {
                    spans: fetched(
                        s.transactions,
                        log.spans,
                        0,
                        Seq::empty(),
                        offset,
                        max_bytes,
                        match isolation {
                            FetchIsolation::ReadCommitted => Some(marks.last_stable_offset),
                            FetchIsolation::ReadUncommitted => None,
                        },
                    ),
                    high_watermark: marks.high_watermark,
                    last_stable_offset: marks.last_stable_offset,
                    log_start_offset: marks.log_start_offset,
                },
            )
        }
    }
}

/// Whether the bytes of spans do not end before they start.
pub open spec fn ranges_hold(spans: Seq<StoredSpanView>) -> bool {
    forall|i: int| 0 <= i < spans.len() ==> (#[trigger] spans[i]).byte_start <= spans[i].byte_end
}

/// Whether `size` more bytes beside `bytes` stay within a limit.
pub(crate) fn fits_beside(bytes: u64, size: u64, max_bytes: usize) -> (r: bool)
    ensures
        r == (bytes + size <= max_bytes),
{
    let limit: u64 = max_bytes as u64;
    bytes <= limit && size <= limit - bytes
}

impl LogState {
    /// The spans that a reader of a partition is given from `offset` on.
    pub fn fetch(&self, partition: &PartitionKey, offset: i64, max_bytes: usize, isolation: FetchIsolation) -> (r: Result<
        PartitionFetch,
        ControlError,
    >)
        requires
            self.deep_view().partitions.contains_key(partition.deep_view()) ==> ranges_hold(
                self.deep_view().partitions[partition.deep_view()].spans,
            ),
        ensures
            error::outcome(r) == fetch_outcome(self.deep_view(), partition.deep_view(), offset, max_bytes as int, isolation),
    {
        let ghost t = self.transactions.deep_view();
        let log = match self.partitions.get(partition) {
            Some(log) => log,
            None => return Err(partition_not_found(partition)),
        };
        let marks = memory_partition_watermarks(&self.transactions, log);
        if offset < marks.log_start_offset || offset > marks.high_watermark {
            return Err(
                ControlError::OffsetOutOfRange {
                    partition: partition.duplicate(),
                    offset,
                    start: marks.log_start_offset,
                    end: marks.high_watermark,
                },
            );
        }
        let ghost all = log.spans.deep_view();
        let ghost stable = match isolation {
            FetchIsolation::ReadCommitted => Some(marks.last_stable_offset),
            FetchIsolation::ReadUncommitted => None,
        };
        let ghost want = fetched(t, all, 0, Seq::empty(), offset, max_bytes as int, stable);
        let mut bytes: u64 = 0;
        let mut spans: Vec<StoredSpan> = Vec::new();
        assert(spans.deep_view() =~= Seq::empty());
        let mut i: usize = 0;
        while i < log.spans.len()
            invariant_except_break
                want == fetched(t, all, i as int, spans.deep_view(), offset, max_bytes as int, stable),
            invariant
                i <= log.spans@.len(),
                t == self.transactions.deep_view(),
                all == log.spans.deep_view(),
                ranges_hold(all),
                stable == (match isolation {
                    FetchIsolation::ReadCommitted => Some(marks.last_stable_offset),
                    FetchIsolation::ReadUncommitted => None::<i64>,
                }),
                bytes == bytes_of(spans.deep_view()),
            ensures
                want == spans.deep_view(),
            decreases log.spans@.len() - i,
        {
            let span = &log.spans[i];
            proof {
                assert(all[i as int] == span.deep_view());
            }
            if span.last_offset < offset {
                i = i + 1;
                continue;
            }
            if isolation == FetchIsolation::ReadCommitted {
                if span.base_offset >= marks.last_stable_offset {
                    break;
                }
                if let Some(id) = span.transaction_id {
                    let visible = match self.transactions.get(&id) {
                        Some(transaction) => transaction.status == TransactionStatus::Committed,
                        None => false,
                    };
                    if !visible {
                        i = i + 1;
                        continue;
                    }
                }
            }
            let size: u64 = span.byte_end - span.byte_start;
            if spans.len() > 0 && !fits_beside(bytes, size, max_bytes) {
                break;
            }
            bytes = bytes + size;
            let ghost before = spans.deep_view();
            spans.push(span.duplicate());
            assert(spans.deep_view() =~= before.push(all[i as int]));
            assert(spans.deep_view().drop_last() =~= before);
            i = i + 1;
        }
        Ok(
            PartitionFetch {
                spans,
                high_watermark: marks.high_watermark,
                last_stable_offset: marks.last_stable_offset,
                log_start_offset: marks.log_start_offset,
            },
        )
    }

    pub fn partition_watermarks(&self, partition: &PartitionKey) -> (r: Result<PartitionWatermarks, ControlError>)
        ensures
            error::outcome(r) == (if self.deep_view().partitions.contains_key(partition.deep_view()) {
                Ok(watermarks(self.deep_view().transactions, self.deep_view().partitions[partition.deep_view()]))
            } else {
                Err(no_partition(partition.deep_view()))
            }),
    {
        match self.partitions.get(partition) {
            Some(log) => Ok(memory_partition_watermarks(&self.transactions, log)),
            None => Err(partition_not_found(partition)),
        }
    }
}

} // verus!
