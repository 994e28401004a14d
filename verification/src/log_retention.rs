//! Letting go of records: on request, by age and by size.

use crate::error;
use crate::error::{ControlError, ControlErrorView};
use crate::log_objects;
use crate::log_objects::{add_object_keys, defer_memory_object_delete, keep_until, reconcile_memory_producer_sequences};
use crate::log_reads;
use crate::log_reads::{find_first_open, partition_not_found, span_is_open};
use crate::log_types::{
    LogState, LogStateView, MemoryPartitionView, MemoryTransaction, MemoryTransactionView, RetentionResult,
    RetentionResultView, StoredSpan, StoredSpanView, TopicConfig, TopicConfigView,
};
use crate::numbers;
use crate::numbers::{saturating_difference, saturating_sum};
use crate::observability;
use crate::partition::{PartitionKey, PartitionKeyView};
use crate::sorted_map;
use crate::sorted_map::{Duplicate, SortedMap};
use vstd::prelude::*;

verus! {

/// The configuration of a topic: topics without one have the default.
pub open spec fn config_of(s: LogStateView, topic: Seq<char>) -> TopicConfigView {
    if s.topic_configs.contains_key(topic) {
        s.topic_configs[topic]
    } else {
        s.default_config
    }
}

/// The configuration of a topic: topics without one have the default.
pub(crate) fn find_config<'a>(state: &'a LogState, topic: &String) -> (r: &'a TopicConfig)
    ensures
        r.deep_view() == config_of(state.deep_view(), topic@),
{
    match state.topic_configs.get(topic) {
        Some(config) => config,
        None => &state.default_config,
    }
}

/// The spans that reach `start`.
pub open spec fn reaching(spans: Seq<StoredSpanView>, start: i64) -> Seq<StoredSpanView>
    decreases spans.len(),
{
    if spans.len() == 0 {
        spans
    } else if spans.last().last_offset >= start {
        reaching(spans.drop_last(), start).push(spans.last())
    } else {
        reaching(spans.drop_last(), start)
    }
}

/// The spans that end before `start`.
pub open spec fn ending_before(spans: Seq<StoredSpanView>, start: i64) -> Seq<StoredSpanView>
    decreases spans.len(),
{
    if spans.len() == 0 {
        spans
    } else if spans.last().last_offset < start {
        ending_before(spans.drop_last(), start).push(spans.last())
    } else {
        ending_before(spans.drop_last(), start)
    }
}

/// Stands for the end of a log in the place of an offset.
pub const HIGH_WATERMARK: i64 = -1;

/// Where a log starts once records before `before_offset` are to go: records of open transactions
/// stay, and so does what comes after them.
pub open spec fn start_after_deletion(s: LogStateView, p: PartitionKeyView, before_offset: i64) -> i64 {
    let log = s.partitions[p];
    let asked = if before_offset == HIGH_WATERMARK {
        log.next_offset
    } else {
        before_offset
    };
    let target = match log_reads::first_open(s.transactions, log.spans) {
        Some(pending) => if pending < asked {
            pending
        } else {
            asked
        },
        None => asked,
    };
    if log.log_start_offset > target {
        log.log_start_offset
    } else {
        target
    }
}

/// The state once a log starts at `start`.
pub open spec fn truncated(s: LogStateView, p: PartitionKeyView, start: i64, now_ms: i64) -> LogStateView {
    let log = s.partitions[p];
    let left = reaching(log.spans, start);
    LogStateView {
        partitions: s.partitions.insert(p, MemoryPartitionView { log_start_offset: start, spans: left, ..log }),
        producers: log_objects::reconciled(s.producers, p, left),
        object_delete_after: log_objects::deferred(
            s.object_delete_after,
            log_objects::keys_of_spans(ending_before(log.spans, start)),
            log_objects::delete_time(now_ms, config_of(s, p.topic).file_delete_delay_ms),
        ),
        ..s
    }
}

/// The state after records have been deleted on request, and where the log then starts.
pub open spec fn records_deleted(s: LogStateView, p: PartitionKeyView, before_offset: i64, now_ms: i64) -> (
    LogStateView,
    Result<i64, ControlErrorView>,
) {
    if !s.partitions.contains_key(p) {
        (s, Err(log_reads::no_partition(p)))
    } else {
        let log = s.partitions[p];
        let asked = if before_offset == HIGH_WATERMARK {
            log.next_offset
        } else {
            before_offset
        };
        if asked < 0 || asked > log.next_offset {
            (
                s,
                Err(
                    ControlErrorView::OffsetOutOfRange {
                        partition: p,
                        offset: before_offset,
                        start: log.log_start_offset,
                        end: log.next_offset,
                    },
                ),
            )
        } else {
            let start = start_after_deletion(s, p, before_offset);
            (truncated(s, p, start, now_ms), Ok(start))
        }
    }
}

/// Parts spans into those that reach `start` and those that end before it.
fn part_spans(spans: &Vec<StoredSpan>, start: i64) -> (r: (Vec<StoredSpan>, Vec<StoredSpan>))
    ensures
        r.0.deep_view() == reaching(spans.deep_view(), start),
        r.1.deep_view() == ending_before(spans.deep_view(), start),
{
    let ghost all = spans.deep_view();
    let mut kept: Vec<StoredSpan> = Vec::new();
    let mut gone: Vec<StoredSpan> = Vec::new();
    let mut i: usize = 0;
    assert(all.take(0) =~= Seq::empty());
    assert(kept.deep_view() =~= Seq::empty());
    assert(gone.deep_view() =~= Seq::empty());
    while i < spans.len()
        invariant
            i <= spans@.len(),
            all == spans.deep_view(),
            kept.deep_view() == reaching(all.take(i as int), start),
            gone.deep_view() == ending_before(all.take(i as int), start),
        decreases spans@.len() - i,
    {
        proof {
            sorted_map::prefix_grows(all, i as int);
            assert(all[i as int] == spans@[i as int].deep_view());
        }
        if spans[i].last_offset >= start {
            let ghost before = kept.deep_view();
            kept.push(spans[i].duplicate());
            assert(kept.deep_view() =~= before.push(all[i as int]));
        } else {
            let ghost before = gone.deep_view();
            gone.push(spans[i].duplicate());
            assert(gone.deep_view() =~= before.push(all[i as int]));
        }
        i = i + 1;
    }
    assert(all.take(i as int) =~= all);
    (kept, gone)
}

impl LogState {
    /// Deletes the records of a partition before an offset.
    pub fn delete_records(&mut self, partition: &PartitionKey, before_offset: i64, now_ms: i64) -> (r: Result<
        i64,
        ControlError,
    >)
        ensures
            (final(self).deep_view(), error::outcome(r)) == records_deleted(
                old(self).deep_view(),
                partition.deep_view(),
                before_offset,
                now_ms,
            ),
    {
        let ghost s = self.deep_view();
        let ghost p = partition.deep_view();
        let delay_ms: i64 = find_config(self, &partition.topic).file_delete_delay_ms;
        let (next_offset, log_start_offset, pending): (i64, i64, Option<i64>) = match self.partitions.get(partition) {
            Some(log) => (log.next_offset, log.log_start_offset, find_first_open(&self.transactions, &log.spans)),
            None => return Err(partition_not_found(partition)),
        };
        let asked: i64 = if before_offset == HIGH_WATERMARK {
            next_offset
        } else {
            before_offset
        };
        if asked < 0 || asked > next_offset {
            return Err(
                ControlError::OffsetOutOfRange {
                    partition: partition.duplicate(),
                    offset: before_offset,
                    start: log_start_offset,
                    end: next_offset,
                },
            );
        }
        let target: i64 = match pending {
            Some(pending) => if pending < asked {
                pending
            } else {
                asked
            },
            None => asked,
        };
        let start: i64 = if log_start_offset > target {
            log_start_offset
        } else {
            target
        };
        let mut log = self.partitions.remove(partition).unwrap();
        let (kept, gone) = part_spans(&log.spans, start);
        log.log_start_offset = start;
        reconcile_memory_producer_sequences(&mut self.producers, partition, &kept);
        log.spans = kept;
        let ghost log_after = log.deep_view();
        self.partitions.insert(partition.duplicate(), log);
        assert(s.partitions.remove(p).insert(p, log_after) =~= s.partitions.insert(p, log_after));
        let mut keys: SortedMap<String, ()> = SortedMap::new();
        add_object_keys(&mut keys, &gone);
        assert(keys.deep_view().dom() =~= log_objects::keys_of_spans(gone.deep_view()));
        defer_memory_object_delete(self, &keys, now_ms, delay_ms);
        Ok(start)
    }
}

/// Whether a span is too old, or its log too large.
pub open spec fn is_excess(config: TopicConfigView, span: StoredSpanView, retained_bytes: int, now_ms: i64) -> bool {
    ||| config.retention_ms >= 0 && span.timestamp_ms <= numbers::clamped_i64(now_ms - config.retention_ms)
    ||| config.retention_bytes >= 0 && retained_bytes > config.retention_bytes
}

/// How many spans from place `i` on are let go, when the log still holds `retained_bytes`: spans go
/// from the oldest on, up to the first that is neither too old nor too much, or that an open
/// transaction wrote.
pub open spec fn excess(
    transactions: Map<u128, MemoryTransactionView>,
    config: TopicConfigView,
    spans: Seq<StoredSpanView>,
    i: int,
    retained_bytes: int,
    now_ms: i64,
) -> nat
    decreases spans.len() - i,
{
    if i < 0 || i >= spans.len() || log_reads::is_open(transactions, spans[i]) || !is_excess(config, spans[i], retained_bytes, now_ms) {
        0
    } else {
        1 + excess(transactions, config, spans, i + 1, retained_bytes - observability::held_bytes(spans[i]), now_ms)
    }
}

/// How many spans of a partition a retention pass lets go.
pub open spec fn excess_of(s: LogStateView, p: PartitionKeyView, now_ms: i64) -> nat {
    if s.topic_configs.contains_key(p.topic) && s.topic_configs[p.topic].delete_records {
        let spans = s.partitions[p].spans;
        excess(s.transactions, s.topic_configs[p.topic], spans, 0, observability::total_bytes(spans), now_ms)
    } else {
        0
    }
}

/// The state after a retention pass over one partition.
pub open spec fn partition_retained(s: LogStateView, p: PartitionKeyView, now_ms: i64) -> LogStateView {
    let n = excess_of(s, p, now_ms) as int;
    if n == 0 {
        s
    } else {
        let log = s.partitions[p];
        let left = log.spans.skip(n);
        let start = if left.len() == 0 {
            log.next_offset
        } else {
            left[0].base_offset
        };
        LogStateView {
            partitions: s.partitions.insert(p, MemoryPartitionView { log_start_offset: start, spans: left, ..log }),
            producers: log_objects::reconciled(s.producers, p, left),
            object_delete_after: log_objects::deferred(
                s.object_delete_after,
                log_objects::keys_of_spans(log.spans.take(n)),
                numbers::clamped_i64(now_ms + s.topic_configs[p.topic].file_delete_delay_ms) as i64,
            ),
            ..s
        }
    }
}

/// The state after a retention pass over the first `n` partitions.
pub open spec fn partitions_retained(s: LogStateView, keys: Seq<PartitionKeyView>, now_ms: i64, n: nat) -> LogStateView
    decreases n,
{
    if n == 0 {
        s
    } else {
        partition_retained(partitions_retained(s, keys, now_ms, (n - 1) as nat), keys[n - 1], now_ms)
    }
}

/// How many spans a retention pass lets go in the first `n` partitions.
pub open spec fn total_excess(s: LogStateView, keys: Seq<PartitionKeyView>, now_ms: i64, n: nat) -> nat
    decreases n,
{
    if n == 0 {
        0
    } else {
        total_excess(s, keys, now_ms, (n - 1) as nat) + excess_of(s, keys[n - 1], now_ms)
    }
}

/// Since when each stored object is referred to by nothing.
pub open spec fn unreferenced(s: LogStateView, now_ms: i64) -> Map<Seq<char>, i64> {
    Map::new(
        |k: Seq<char>|
            if s.objects.contains_key(k) {
                !log_objects::refers_to(s.partitions, k)
            } else {
                s.unreferenced_objects.contains_key(k)
            },
        |k: Seq<char>|
            if s.unreferenced_objects.contains_key(k) {
                s.unreferenced_objects[k]
            } else {
                now_ms
            },
    )
}

/// Whether an object has been unreferenced for long enough and is no longer kept.
pub open spec fn is_deletable(s: LogStateView, key: Seq<char>, since: i64, grace_ms: i64, now_ms: i64) -> bool {
    &&& numbers::clamped_i64(now_ms - since) >= (if grace_ms < 0 { 0 } else { grace_ms as int })
    &&& s.object_delete_after.contains_key(key) ==> now_ms >= s.object_delete_after[key]
}

/// The unreferenced objects that may be deleted.
pub open spec fn deletable(s: LogStateView, grace_ms: i64, now_ms: i64) -> Map<Seq<char>, i64> {
    sorted_map::filtered(
        s.unreferenced_objects,
        |key: Seq<char>, since: i64| is_deletable(s, key, since, grace_ms, now_ms),
    )
}

/// The state after a retention pass, and what the pass found.
pub open spec fn retained(s: LogStateView, now_ms: i64, object_delete_grace_ms: i64) -> (LogStateView, RetentionResultView) {
    let keys = sorted_map::sorted_keys::<PartitionKey>(s.partitions.dom());
    let trimmed = partitions_retained(s, keys, now_ms, keys.len());
    let after = LogStateView { unreferenced_objects: unreferenced(trimmed, now_ms), ..trimmed };
    (
        after,
        RetentionResultView {
            removed_spans: total_excess(s, keys, now_ms, keys.len()) as u64,
            deletable_objects: sorted_map::sorted_keys::<String>(deletable(after, object_delete_grace_ms, now_ms).dom()),
        },
    )
}

/// A part of a log holds no more than the log.
proof fn part_holds_no_more(spans: Seq<StoredSpanView>, n: int)
    requires
        0 <= n <= spans.len(),
    ensures
        0 <= observability::total_bytes(spans.take(n)) <= observability::total_bytes(spans),
    decreases spans.len(),
{
    if n == spans.len() {
        assert(spans.take(n) =~= spans);
        if n > 0 {
            part_holds_no_more(spans.drop_last(), n - 1);
            assert(spans.drop_last().take(n - 1) =~= spans.drop_last());
        }
    } else {
        part_holds_no_more(spans.drop_last(), n);
        assert(spans.drop_last().take(n) =~= spans.take(n));
    }
}

fn bytes_held(span: &StoredSpan) -> (r: u64)
    ensures
        r == observability::held_bytes(span.deep_view()),
{
    if span.byte_end < span.byte_start {
        0
    } else {
        span.byte_end - span.byte_start
    }
}

fn count_excess(transactions: &SortedMap<u128, MemoryTransaction>, config: &TopicConfig, spans: &Vec<StoredSpan>, now_ms: i64) -> (r: usize)
    requires
        observability::total_bytes(spans.deep_view()) <= u64::MAX,
    ensures
        r == excess(
            transactions.deep_view(),
            config.deep_view(),
            spans.deep_view(),
            0,
            observability::total_bytes(spans.deep_view()),
            now_ms,
        ),
        r <= spans@.len(),
{
    let ghost t = transactions.deep_view();
    let ghost c = config.deep_view();
    let ghost all = spans.deep_view();
    let ghost total = observability::total_bytes(all);
    let mut retained_bytes: u64 = 0;
    let mut i: usize = 0;
    assert(all.take(0) =~= Seq::empty());
    while i < spans.len()
        invariant
            i <= spans@.len(),
            all == spans.deep_view(),
            retained_bytes == observability::total_bytes(all.take(i as int)),
            total == observability::total_bytes(all),
            total <= u64::MAX,
        decreases spans@.len() - i,
    {
        proof {
            sorted_map::prefix_grows(all, i as int);
            assert(all[i as int] == spans@[i as int].deep_view());
            part_holds_no_more(all, i + 1);
        }
        retained_bytes = retained_bytes + bytes_held(&spans[i]);
        i = i + 1;
    }
    assert(all.take(i as int) =~= all);
    let oldest_ms: i64 = saturating_difference(now_ms, config.retention_ms);
    let ghost want = excess(t, c, all, 0, total, now_ms);
    let mut n: usize = 0;
    assert(all.take(0) =~= Seq::empty());
    while n < spans.len()
        invariant_except_break
            want == n + excess(t, c, all, n as int, retained_bytes as int, now_ms),
        invariant
            n <= spans@.len(),
            t == transactions.deep_view(),
            c == config.deep_view(),
            all == spans.deep_view(),
            total == observability::total_bytes(all),
            retained_bytes == total - observability::total_bytes(all.take(n as int)),
            oldest_ms == numbers::clamped_i64(now_ms - config.retention_ms),
        ensures
            want == n,
        decreases spans@.len() - n,
    {
        proof {
            sorted_map::prefix_grows(all, n as int);
            assert(all[n as int] == spans@[n as int].deep_view());
            part_holds_no_more(all, n + 1);
        }
        if span_is_open(transactions, &spans[n]) {
            break;
        }
        let expired = config.retention_ms >= 0 && spans[n].timestamp_ms <= oldest_ms;
        let over_size = config.retention_bytes >= 0 && retained_bytes > config.retention_bytes as u64;
        if !expired && !over_size {
            break;
        }
        retained_bytes = retained_bytes - bytes_held(&spans[n]);
        n = n + 1;
    }
    n
}

/// A pass over some partitions leaves the others, the configurations and the transactions alone.
proof fn others_are_kept(s: LogStateView, keys: Seq<PartitionKeyView>, now_ms: i64, n: nat)
    requires
        n <= keys.len(),
        forall|i: int| 0 <= i < keys.len() ==> s.partitions.contains_key(#[trigger] keys[i]),
    ensures
        partitions_retained(s, keys, now_ms, n).topic_configs == s.topic_configs,
        partitions_retained(s, keys, now_ms, n).transactions == s.transactions,
        partitions_retained(s, keys, now_ms, n).partitions.dom() == s.partitions.dom(),
        forall|p: PartitionKeyView| #![trigger s.partitions[p]] !keys.take(n as int).contains(p)
            ==> partitions_retained(s, keys, now_ms, n).partitions[p] == s.partitions[p],
    decreases n,
{
    if n > 0 {
        others_are_kept(s, keys, now_ms, (n - 1) as nat);
        let before = partitions_retained(s, keys, now_ms, (n - 1) as nat);
        let after = partitions_retained(s, keys, now_ms, n);
        let p = keys[n - 1];
        assert(s.partitions.contains_key(p));
        assert(before.partitions.dom().contains(p));
        assert(after.partitions.dom() =~= s.partitions.dom());
        sorted_map::prefix_grows(keys, n - 1);
        assert forall|q: PartitionKeyView| #![trigger s.partitions[q]] !keys.take(n as int).contains(q)
            implies after.partitions[q] == s.partitions[q] by {
            assert(!keys.take(n as int).to_set().contains(q));
            assert(!keys.take(n - 1).to_set().contains(q));
            assert(q != p);
        }
    }
}

/// The count of a pass only grows.
proof fn excess_adds_up(s: LogStateView, keys: Seq<PartitionKeyView>, now_ms: i64, n: nat, m: nat)
    requires
        n <= m,
    ensures
        total_excess(s, keys, now_ms, n) <= total_excess(s, keys, now_ms, m),
    decreases m,
{
    if n < m {
        excess_adds_up(s, keys, now_ms, n, (m - 1) as nat);
    }
}

/// Whether the bytes of every log can be counted.
pub open spec fn all_sizes_fit(s: LogStateView) -> bool {
    forall|p: PartitionKeyView| #[trigger] s.partitions.contains_key(p) ==> observability::total_bytes(s.partitions[p].spans) <= u64::MAX
}

/// Whether the spans that a pass lets go can be counted.
pub open spec fn excess_fits(s: LogStateView, now_ms: i64) -> bool {
    let keys = sorted_map::sorted_keys::<PartitionKey>(s.partitions.dom());
    total_excess(s, keys, now_ms, keys.len()) <= u64::MAX
}

impl LogState {
    /// Lets go of what a partition holds in excess.
    fn retain_partition(&mut self, partition: &PartitionKey, now_ms: i64) -> (r: usize)
        requires
            old(self).deep_view().partitions.contains_key(partition.deep_view()),
            observability::total_bytes(old(self).deep_view().partitions[partition.deep_view()].spans) <= u64::MAX,
        ensures
            final(self).deep_view() == partition_retained(old(self).deep_view(), partition.deep_view(), now_ms),
            r == excess_of(old(self).deep_view(), partition.deep_view(), now_ms),
    {
        let ghost s = self.deep_view();
        let ghost p = partition.deep_view();
        let (n, delete_after): (usize, i64) = match self.topic_configs.get(&partition.topic) {
            Some(config) => {
                if !config.delete_records {
                    return 0;
                }
                let log = self.partitions.get(partition).unwrap();
                (
                    count_excess(&self.transactions, config, &log.spans, now_ms),
                    saturating_sum(now_ms, config.file_delete_delay_ms),
                )
            },
            None => return 0,
        };
        if n == 0 {
            return 0;
        }
        let mut log = self.partitions.remove(partition).unwrap();
        let ghost all = log.spans.deep_view();
        let left = log.spans.split_off(n);
        assert(log.spans.deep_view() =~= all.take(n as int));
        assert(left.deep_view() =~= all.skip(n as int));
        let mut keys: SortedMap<String, ()> = SortedMap::new();
        add_object_keys(&mut keys, &log.spans);
        assert(keys.deep_view().dom() =~= log_objects::keys_of_spans(all.take(n as int)));
        log.log_start_offset = if left.len() == 0 {
            log.next_offset
        } else {
            left[0].base_offset
        };
        reconcile_memory_producer_sequences(&mut self.producers, partition, &left);
        log.spans = left;
        let ghost log_after = log.deep_view();
        self.partitions.insert(partition.duplicate(), log);
        assert(s.partitions.remove(p).insert(p, log_after) =~= s.partitions.insert(p, log_after));
        keep_until(&mut self.object_delete_after, &keys, delete_after);
        n
    }

    /// Notes since when stored objects are referred to by nothing.
    fn note_unreferenced(&mut self, now_ms: i64)
        ensures
            final(self).deep_view() == (LogStateView {
                unreferenced_objects: unreferenced(old(self).deep_view(), now_ms),
                ..old(self).deep_view()
            }),
    {
        let ghost s = self.deep_view();
        let keys = self.partitions.keys();
        let ghost all = keys.deep_view();
        let mut referenced: SortedMap<String, ()> = SortedMap::new();
        let mut i: usize = 0;
        while i < keys.len()
            invariant
                i <= keys@.len(),
                s == self.deep_view(),
                all == keys.deep_view(),
                all.to_set() == s.partitions.dom(),
                forall|k: Seq<char>| #[trigger] referenced.deep_view().dom().contains(k) <==> exists|j: int| 0 <= j < i
                    && log_objects::log_refers_to(s.partitions[#[trigger] all[j]].spans, k),
            decreases keys@.len() - i,
        {
            assert(all[i as int] == keys@[i as int].deep_view());
            assert(all.to_set().contains(all[i as int]));
            let ghost before = referenced.deep_view().dom();
            let log = self.partitions.get(&keys[i]).unwrap();
            add_object_keys(&mut referenced, &log.spans);
            proof {
                let now = referenced.deep_view().dom();
                assert forall|k: Seq<char>| #[trigger] now.contains(k) <==> exists|j: int| 0 <= j < i + 1
                    && log_objects::log_refers_to(s.partitions[#[trigger] all[j]].spans, k) by {
                    if before.contains(k) {
                        let j = choose|j: int| 0 <= j < i && log_objects::log_refers_to(s.partitions[#[trigger] all[j]].spans, k);
                        assert(log_objects::log_refers_to(s.partitions[all[j]].spans, k));
                    }
                    if log_objects::log_refers_to(s.partitions[all[i as int]].spans, k) {
                        assert(now.contains(k));
                    }
                    if exists|j: int| 0 <= j < i + 1 && log_objects::log_refers_to(s.partitions[#[trigger] all[j]].spans, k) {
                        let j = choose|j: int| 0 <= j < i + 1 && log_objects::log_refers_to(s.partitions[#[trigger] all[j]].spans, k);
                        if j < i {
                            assert(before.contains(k));
                        }
                    }
                }
            }
            i = i + 1;
        }
        proof {
            assert forall|k: Seq<char>| #[trigger] referenced.deep_view().contains_key(k) <==> log_objects::refers_to(s.partitions, k) by {
                if referenced.deep_view().dom().contains(k) {
                    let j = choose|j: int| 0 <= j < i && log_objects::log_refers_to(s.partitions[#[trigger] all[j]].spans, k);
                    assert(all.to_set().contains(all[j]));
                    assert(s.partitions.contains_key(all[j]));
                }
                if log_objects::refers_to(s.partitions, k) {
                    let p = choose|p: PartitionKeyView| #[trigger] s.partitions.contains_key(p)
                        && log_objects::log_refers_to(s.partitions[p].spans, k);
                    assert(all.to_set().contains(p));
                    let j = choose|j: int| 0 <= j < all.len() && all[j] == p;
                    assert(log_objects::log_refers_to(s.partitions[all[j]].spans, k));
                }
            }
        }
        let objects = self.objects.keys();
        let ghost listed = objects.deep_view();
        let mut n: usize = 0;
        while n < objects.len()
            invariant
                n <= objects@.len(),
                listed == objects.deep_view(),
                listed.to_set() == s.objects.dom(),
                sorted_map::strictly_sorted::<String>(listed),
                forall|k: Seq<char>| #[trigger] referenced.deep_view().contains_key(k) <==> log_objects::refers_to(s.partitions, k),
                self.deep_view() == (LogStateView { unreferenced_objects: self.unreferenced_objects.deep_view(), ..s }),
                forall|k: Seq<char>| #[trigger] self.unreferenced_objects.deep_view().contains_key(k) <==> (if listed.take(n as int).to_set().contains(k) {
                    !log_objects::refers_to(s.partitions, k)
                } else {
                    s.unreferenced_objects.contains_key(k)
                }),
                forall|k: Seq<char>| #[trigger] self.unreferenced_objects.deep_view().contains_key(k)
                    ==> self.unreferenced_objects.deep_view()[k] == (if s.unreferenced_objects.contains_key(k) {
                    s.unreferenced_objects[k]
                } else {
                    now_ms
                }),
            decreases objects@.len() - n,
        {
            proof {
                assert(listed[n as int] == objects@[n as int].deep_view());
                sorted_map::prefix_grows(listed, n as int);
                sorted_map::prefix_lacks::<String>(listed, n as int);
            }
            if referenced.contains_key(&objects[n]) {
                self.unreferenced_objects.remove(&objects[n]);
            } else if !self.unreferenced_objects.contains_key(&objects[n]) {
                self.unreferenced_objects.insert(objects[n].clone(), now_ms);
            }
            n = n + 1;
        }
        assert(listed.take(n as int) =~= listed);
        assert(self.unreferenced_objects.deep_view() =~= unreferenced(s, now_ms));
    }

    /// Lets go of what logs hold in excess, and tells which objects may be deleted.
    pub fn apply_retention(&mut self, now_ms: i64, object_delete_grace_ms: i64) -> (r: RetentionResult)
        requires
            all_sizes_fit(old(self).deep_view()),
            excess_fits(old(self).deep_view(), now_ms),
        ensures
            (final(self).deep_view(), r.deep_view()) == retained(old(self).deep_view(), now_ms, object_delete_grace_ms),
    {
        let ghost s = self.deep_view();
        let keys = self.partitions.keys();
        let ghost all = keys.deep_view();
        let mut removed_spans: u64 = 0;
        let mut i: usize = 0;
        while i < keys.len()
            invariant
                i <= keys@.len(),
                all == keys.deep_view(),
                all.to_set() == s.partitions.dom(),
                sorted_map::strictly_sorted::<PartitionKey>(all),
                all_sizes_fit(s),
                total_excess(s, all, now_ms, all.len()) <= u64::MAX,
                self.deep_view() == partitions_retained(s, all, now_ms, i as nat),
                removed_spans == total_excess(s, all, now_ms, i as nat),
            decreases keys@.len() - i,
        {
            proof {
                assert(all[i as int] == keys@[i as int].deep_view());
                assert forall|j: int| 0 <= j < all.len() implies s.partitions.contains_key(#[trigger] all[j]) by {
                    assert(all.to_set().contains(all[j]));
                }
                others_are_kept(s, all, now_ms, i as nat);
                sorted_map::prefix_lacks::<PartitionKey>(all, i as int);
                assert(s.partitions.contains_key(all[i as int]));
                assert(self.deep_view().partitions[all[i as int]] == s.partitions[all[i as int]]);
                assert(self.deep_view().partitions.dom().contains(all[i as int]));
                assert(excess_of(self.deep_view(), all[i as int], now_ms) == excess_of(s, all[i as int], now_ms));
                excess_adds_up(s, all, now_ms, (i + 1) as nat, all.len());
            }
            let n: usize = self.retain_partition(&keys[i], now_ms);
            removed_spans = removed_spans + n as u64;
            i = i + 1;
        }
        self.note_unreferenced(now_ms);
        let ghost after = self.deep_view();
        let ghost may_go = |key: Seq<char>, since: i64| is_deletable(after, key, since, object_delete_grace_ms, now_ms);
        let grace_ms: i64 = if object_delete_grace_ms < 0 {
            0
        } else {
            object_delete_grace_ms
        };
        let delete_after = &self.object_delete_after;
        let test = |key: &String, since: &i64| -> (b: bool)
            ensures b == may_go(key.deep_view(), since.deep_view())
        {
            let kept = match delete_after.get(key) {
                Some(time) => now_ms < *time,
                None => false,
            };
            saturating_difference(now_ms, *since) >= grace_ms && !kept
        };
        let deletable_objects = self.unreferenced_objects.keys_where(test, Ghost(may_go));
        assert(sorted_map::filtered(after.unreferenced_objects, may_go) == deletable(after, object_delete_grace_ms, now_ms));
        RetentionResult { removed_spans, deletable_objects }
    }
}

} // verus!
