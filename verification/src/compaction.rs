//! Replacing spans by compacted ones.

use crate::error;
use crate::error::{ControlError, ControlErrorView};
use crate::log_reads;
use crate::log_reads::span_is_open;
use crate::log_retention;
use crate::log_retention::find_config;
use crate::log_types::{
    LogState, LogStateView, MemoryPartition, MemoryPartitionView, MemoryTransaction, MemoryTransactionView, ObjectRef,
    ObjectRefView, ProducerBatch, StoredSpan, StoredSpanView, TransactionStatus,
};
use crate::numbers;
use crate::numbers::{saturating_difference, saturating_sum};
use crate::observability;
use crate::partition::{PartitionKey, PartitionKeyView};
use crate::sorted_map;
use crate::sorted_map::{Duplicate, SortedMap};
use vstd::prelude::*;

verus! {

/// What has become of the transaction that wrote a span.
#[derive(Debug, Clone, Copy, PartialEq, Eq, Structural)]
pub enum CompactionTransactionState {
    /// No transaction wrote the span.
    Visible,
    /// The transaction was committed.
    Committed,
    /// The transaction was aborted.
    Aborted,
}

impl DeepView for CompactionTransactionState {
    type V = CompactionTransactionState;

    open spec fn deep_view(&self) -> CompactionTransactionState {
        *self
    }
}

impl Duplicate for CompactionTransactionState {
    fn duplicate(&self) -> (r: Self) {
        *self
    }
}

/// A span that is to be compacted.
#[derive(Debug, Clone)]
pub struct CompactionSourceSpan {
    pub id: i64,
    pub span: StoredSpan,
    pub transaction_state: CompactionTransactionState,
}

/// The model of [`CompactionSourceSpan`].
pub struct CompactionSourceSpanView {
    pub id: i64,
    pub span: StoredSpanView,
    pub transaction_state: CompactionTransactionState,
}

impl DeepView for CompactionSourceSpan {
    type V = CompactionSourceSpanView;

    open spec fn deep_view(&self) -> CompactionSourceSpanView {
        CompactionSourceSpanView {
            id: self.id,
            span: self.span.deep_view(),
            transaction_state: self.transaction_state,
        }
    }
}

impl Duplicate for CompactionSourceSpan {
    fn duplicate(&self) -> (r: Self) {
        CompactionSourceSpan {
            id: self.id,
            span: self.span.duplicate(),
            transaction_state: self.transaction_state,
        }
    }
}

/// What one compaction of a partition may replace, and under which lease.
#[derive(Debug, Clone)]
pub struct CompactionPlan {
    pub lease_id: u128,
    pub partition: PartitionKey,
    pub delete_retention_ms: i64,
    pub file_delete_delay_ms: i64,
    pub end_offset: i64,
    pub spans: Vec<CompactionSourceSpan>,
}

/// The model of [`CompactionPlan`].
pub struct CompactionPlanView {
    pub lease_id: u128,
    pub partition: PartitionKeyView,
    pub delete_retention_ms: i64,
    pub file_delete_delay_ms: i64,
    pub end_offset: i64,
    pub spans: Seq<CompactionSourceSpanView>,
}

impl DeepView for CompactionPlan {
    type V = CompactionPlanView;

    open spec fn deep_view(&self) -> CompactionPlanView {
        CompactionPlanView {
            lease_id: self.lease_id,
            partition: self.partition.deep_view(),
            delete_retention_ms: self.delete_retention_ms,
            file_delete_delay_ms: self.file_delete_delay_ms,
            end_offset: self.end_offset,
            spans: self.spans.deep_view(),
        }
    }
}

impl Duplicate for CompactionPlan {
    fn duplicate(&self) -> (r: Self) {
        CompactionPlan {
            lease_id: self.lease_id,
            partition: self.partition.duplicate(),
            delete_retention_ms: self.delete_retention_ms,
            file_delete_delay_ms: self.file_delete_delay_ms,
            end_offset: self.end_offset,
            spans: self.spans.duplicate(),
        }
    }
}

/// A span that is to replace another.
#[derive(Debug, Clone)]
pub struct CompactedSpanDraft {
    pub source_id: i64,
    pub byte_start: u64,
    pub byte_end: u64,
    pub base_offset: i64,
    pub last_offset: i64,
    pub record_count: i32,
    pub checksum: Vec<u8>,
    pub producer: Option<ProducerBatch>,
}

/// The model of [`CompactedSpanDraft`].
pub struct CompactedSpanDraftView {
    pub source_id: i64,
    pub byte_start: u64,
    pub byte_end: u64,
    pub base_offset: i64,
    pub last_offset: i64,
    pub record_count: i32,
    pub checksum: Seq<u8>,
    pub producer: Option<ProducerBatch>,
}

impl DeepView for CompactedSpanDraft {
    type V = CompactedSpanDraftView;

    open spec fn deep_view(&self) -> CompactedSpanDraftView {
        CompactedSpanDraftView {
            source_id: self.source_id,
            byte_start: self.byte_start,
            byte_end: self.byte_end,
            base_offset: self.base_offset,
            last_offset: self.last_offset,
            record_count: self.record_count,
            checksum: self.checksum.deep_view(),
            producer: self.producer.deep_view(),
        }
    }
}

impl Duplicate for CompactedSpanDraft {
    fn duplicate(&self) -> (r: Self) {
        CompactedSpanDraft {
            source_id: self.source_id,
            byte_start: self.byte_start,
            byte_end: self.byte_end,
            base_offset: self.base_offset,
            last_offset: self.last_offset,
            record_count: self.record_count,
            checksum: self.checksum.duplicate(),
            producer: self.producer.duplicate(),
        }
    }
}

/// An object that holds compacted spans.
#[derive(Debug, Clone)]
pub struct CompactedObject {
    pub object: ObjectRef,
    pub spans: Vec<CompactedSpanDraft>,
}

/// The model of [`CompactedObject`].
pub struct CompactedObjectView {
    pub object: ObjectRefView,
    pub spans: Seq<CompactedSpanDraftView>,
}

impl DeepView for CompactedObject {
    type V = CompactedObjectView;

    open spec fn deep_view(&self) -> CompactedObjectView {
        CompactedObjectView {
            object: self.object.deep_view(),
            spans: self.spans.deep_view(),
        }
    }
}

impl Duplicate for CompactedObject {
    fn duplicate(&self) -> (r: Self) {
        CompactedObject {
            object: self.object.duplicate(),
            spans: self.spans.duplicate(),
        }
    }
}

/// How much of what could be compacted in a partition never was.
#[derive(Debug, Clone, PartialEq, Eq)]
pub struct DirtyShare {
    pub partition: PartitionKey,
    pub dirty_bytes: u128,
    pub total_bytes: u128,
}

/// The model of [`DirtyShare`].
pub struct DirtyShareView {
    pub partition: PartitionKeyView,
    pub dirty_bytes: u128,
    pub total_bytes: u128,
}

impl DeepView for DirtyShare {
    type V = DirtyShareView;

    open spec fn deep_view(&self) -> DirtyShareView {
        DirtyShareView {
            partition: self.partition.deep_view(),
            dirty_bytes: self.dirty_bytes,
            total_bytes: self.total_bytes,
        }
    }
}

/// What has become of the transaction that wrote a span that is not open.
pub open spec fn state_of(transactions: Map<u128, MemoryTransactionView>, span: StoredSpanView) -> CompactionTransactionState {
    if span.transaction_id is None || !transactions.contains_key(span.transaction_id->0) {
        CompactionTransactionState::Visible
    } else if transactions[span.transaction_id->0].status == TransactionStatus::Aborted {
        CompactionTransactionState::Aborted
    } else {
        CompactionTransactionState::Committed
    }
}

/// How many spans from place `i` on can be compacted: up to the first that is younger than
/// `cutoff_ms` or that an open transaction wrote.
pub open spec fn compactable(transactions: Map<u128, MemoryTransactionView>, spans: Seq<StoredSpanView>, cutoff_ms: i64, i: int) -> nat
    decreases spans.len() - i,
{
    if i < 0 || i >= spans.len() || spans[i].timestamp_ms > cutoff_ms || log_reads::is_open(transactions, spans[i]) {
        0
    } else {
        1 + compactable(transactions, spans, cutoff_ms, i + 1)
    }
}

/// The spans of a partition that can be compacted.
pub open spec fn sources(s: LogStateView, p: PartitionKeyView, now_ms: i64) -> Seq<CompactionSourceSpanView> {
    let spans = s.partitions[p].spans;
    let cutoff_ms = numbers::clamped_i64(now_ms - log_retention::config_of(s, p.topic).min_compaction_lag_ms) as i64;
    Seq::new(
        compactable(s.transactions, spans, cutoff_ms, 0),
        |i: int|
            CompactionSourceSpanView {
                id: spans[i].base_offset,
                span: spans[i],
                transaction_state: state_of(s.transactions, spans[i]),
            },
    )
}

fn find_state(transactions: &SortedMap<u128, MemoryTransaction>, span: &StoredSpan) -> (r: CompactionTransactionState)
    ensures
        r == state_of(transactions.deep_view(), span.deep_view()),
{
    match span.transaction_id {
        None => CompactionTransactionState::Visible,
        Some(id) => match transactions.get(&id) {
            None => CompactionTransactionState::Visible,
            Some(transaction) => if transaction.status == TransactionStatus::Aborted {
                CompactionTransactionState::Aborted
            } else {
                CompactionTransactionState::Committed
            },
        },
    }
}

fn list_sources(state: &LogState, partition: &PartitionKey, now_ms: i64) -> (r: Vec<CompactionSourceSpan>)
    requires
        state.deep_view().partitions.contains_key(partition.deep_view()),
    ensures
        r.deep_view() == sources(state.deep_view(), partition.deep_view(), now_ms),
{
    let ghost s = state.deep_view();
    let ghost p = partition.deep_view();
    let cutoff_ms: i64 = saturating_difference(now_ms, find_config(state, &partition.topic).min_compaction_lag_ms);
    let log = state.partitions.get(partition).unwrap();
    let ghost all = log.spans.deep_view();
    let ghost want = compactable(s.transactions, all, cutoff_ms, 0);
    let mut r: Vec<CompactionSourceSpan> = Vec::new();
    let mut i: usize = 0;
    while i < log.spans.len()
        invariant_except_break
            want == i + compactable(s.transactions, all, cutoff_ms, i as int),
        invariant
            i <= log.spans@.len(),
            s == state.deep_view(),
            all == log.spans.deep_view(),
            r@.len() == i,
            forall|j: int| 0 <= j < i ==> (#[trigger] r@[j]).deep_view() == (CompactionSourceSpanView {
                id: all[j].base_offset,
                span: all[j],
                transaction_state: state_of(s.transactions, all[j]),
            }),
        ensures
            want == i,
        decreases log.spans@.len() - i,
    {
        assert(all[i as int] == log.spans@[i as int].deep_view());
        if log.spans[i].timestamp_ms > cutoff_ms || span_is_open(&state.transactions, &log.spans[i]) {
            break;
        }
        r.push(
            CompactionSourceSpan {
                id: log.spans[i].base_offset,
                span: log.spans[i].duplicate(),
                transaction_state: find_state(&state.transactions, &log.spans[i]),
            },
        );
        i = i + 1;
    }
    assert(r.deep_view() =~= sources(s, p, now_ms));
    r
}

/// Whether a span was never compacted.
pub open spec fn is_dirty(source: CompactionSourceSpanView, compaction_last_offset: i64) -> bool {
    source.span.last_offset > compaction_last_offset
}

/// The bytes of the sources that meet `p`.
pub open spec fn source_bytes(sources: Seq<CompactionSourceSpanView>, p: spec_fn(CompactionSourceSpanView) -> bool) -> int
    decreases sources.len(),
{
    if sources.len() == 0 {
        0
    } else {
        source_bytes(sources.drop_last(), p) + if p(sources.last()) {
            observability::held_bytes(sources.last().span)
        } else {
            0
        }
    }
}

/// Whether some source was never compacted and is at least as old as `cutoff_ms`.
pub open spec fn lags(sources: Seq<CompactionSourceSpanView>, compaction_last_offset: i64, cutoff_ms: int) -> bool {
    exists|i: int| 0 <= i < sources.len() && is_dirty(#[trigger] sources[i], compaction_last_offset) && sources[i].span.timestamp_ms
        <= cutoff_ms
}

/// Whether some source was never compacted.
pub open spec fn some_dirty(sources: Seq<CompactionSourceSpanView>, compaction_last_offset: i64) -> bool {
    exists|i: int| 0 <= i < sources.len() && is_dirty(#[trigger] sources[i], compaction_last_offset)
}

/// Whether sources are worth a compaction: tombstones are due for another look, or something was
/// never compacted that makes up enough of the log or has waited for too long.
pub open spec fn is_due(
    sources: Seq<CompactionSourceSpanView>,
    compaction_last_offset: i64,
    ratio_reached: bool,
    max_compaction_lag_ms: i64,
    now_ms: i64,
    tombstone_recheck_due: bool,
) -> bool {
    if tombstone_recheck_due {
        sources.len() > 0
    } else {
        some_dirty(sources, compaction_last_offset) && (ratio_reached || lags(
            sources,
            compaction_last_offset,
            numbers::clamped_i64(now_ms - max_compaction_lag_ms),
        ))
    }
}

/// Whether sources are worth a compaction, when `ratio_reached` says whether what was never
/// compacted makes up enough of the log.
pub fn should_compact(
    spans: &Vec<CompactionSourceSpan>,
    compaction_last_offset: i64,
    ratio_reached: bool,
    max_compaction_lag_ms: i64,
    now_ms: i64,
    tombstone_recheck_due: bool,
) -> (r: bool)
    ensures
        r == is_due(
            spans.deep_view(),
            compaction_last_offset,
            ratio_reached,
            max_compaction_lag_ms,
            now_ms,
            tombstone_recheck_due,
        ),
{
    let ghost all = spans.deep_view();
    assert(all.len() == spans@.len());
    if tombstone_recheck_due {
        return spans.len() > 0;
    }
    let cutoff_ms: i64 = saturating_difference(now_ms, max_compaction_lag_ms);
    let mut dirty = false;
    let mut late = false;
    let mut i: usize = 0;
    while i < spans.len()
        invariant
            i <= spans@.len(),
            all == spans.deep_view(),
            dirty == exists|j: int| 0 <= j < i && is_dirty(#[trigger] all[j], compaction_last_offset),
            late == exists|j: int| 0 <= j < i && is_dirty(#[trigger] all[j], compaction_last_offset) && all[j].span.timestamp_ms <= cutoff_ms,
        decreases spans@.len() - i,
    {
        assert(all[i as int] == spans@[i as int].deep_view());
        if spans[i].span.last_offset > compaction_last_offset {
            assert(is_dirty(all[i as int], compaction_last_offset));
            dirty = true;
            if spans[i].span.timestamp_ms <= cutoff_ms {
                late = true;
            }
        }
        i = i + 1;
    }
    dirty && (ratio_reached || late)
}

/// How much of some sources was never compacted, and how much there is.
pub fn measure_sources(spans: &Vec<CompactionSourceSpan>, compaction_last_offset: i64) -> (r: (u128, u128))
    ensures
        r.0 == source_bytes(spans.deep_view(), |source: CompactionSourceSpanView| is_dirty(source, compaction_last_offset)),
        r.1 == source_bytes(spans.deep_view(), |source: CompactionSourceSpanView| true),
{
    let ghost all = spans.deep_view();
    let ghost fresh = |source: CompactionSourceSpanView| is_dirty(source, compaction_last_offset);
    let ghost any = |source: CompactionSourceSpanView| true;
    let mut dirty: u128 = 0;
    let mut total: u128 = 0;
    let mut i: usize = 0;
    assert(all.take(0) =~= Seq::empty());
    while i < spans.len()
        invariant
            i <= spans@.len(),
            all == spans.deep_view(),
            fresh == (|source: CompactionSourceSpanView| is_dirty(source, compaction_last_offset)),
            any == (|source: CompactionSourceSpanView| true),
            dirty == source_bytes(all.take(i as int), fresh),
            total == source_bytes(all.take(i as int), any),
            dirty <= total,
            total <= i * u64::MAX,
        decreases spans@.len() - i,
    {
        proof {
            assert(all[i as int] == spans@[i as int].deep_view());
            sorted_map::prefix_grows(all, i as int);
            assert((i + 1) * u64::MAX == i * u64::MAX + u64::MAX) by (nonlinear_arith);
            assert((i + 1) * u64::MAX <= u128::MAX) by (nonlinear_arith)
                requires
                    i + 1 <= u64::MAX,
            ;
        }
        let span = &spans[i].span;
        let size: u64 = if span.byte_end < span.byte_start {
            0
        } else {
            span.byte_end - span.byte_start
        };
        if span.last_offset > compaction_last_offset {
            dirty = dirty + size as u128;
        }
        total = total + size as u128;
        i = i + 1;
    }
    assert(all.take(i as int) =~= all);
    (dirty, total)
}

/// Whether no compaction of a log is under way.
pub open spec fn is_free(log: MemoryPartitionView, now_ms: i64) -> bool {
    log.compaction_lease is None || (log.compaction_lease->0).1 <= now_ms
}

/// Whether the tombstones of a log are due for another look.
pub open spec fn recheck_due(log: MemoryPartitionView, now_ms: i64) -> bool {
    log.compaction_recheck_at_ms is Some && log.compaction_recheck_at_ms->0 <= now_ms
}

/// Whether a partition can be compacted now, when `reached` holds the partitions in which enough
/// was never compacted.
pub open spec fn is_claimable(s: LogStateView, p: PartitionKeyView, now_ms: i64, reached: Set<PartitionKeyView>) -> bool {
    let config = log_retention::config_of(s, p.topic);
    let log = s.partitions[p];
    &&& config.compact_records
    &&& is_free(log, now_ms)
    &&& sources(s, p, now_ms).len() > 0
    &&& is_due(
        sources(s, p, now_ms),
        log.compaction_last_offset,
        reached.contains(p),
        config.max_compaction_lag_ms,
        now_ms,
        recheck_due(log, now_ms),
    )
}

/// The place from `i` on of the first partition that can be compacted.
pub open spec fn first_claimable(s: LogStateView, keys: Seq<PartitionKeyView>, now_ms: i64, reached: Set<PartitionKeyView>, i: int) -> Option<int>
    decreases keys.len() - i,
{
    if i < 0 || i >= keys.len() {
        None
    } else if is_claimable(s, keys[i], now_ms, reached) {
        Some(i)
    } else {
        first_claimable(s, keys, now_ms, reached, i + 1)
    }
}

/// The plan for the compaction of a partition.
pub open spec fn plan_for(s: LogStateView, p: PartitionKeyView, lease_id: u128, now_ms: i64) -> CompactionPlanView {
    let config = log_retention::config_of(s, p.topic);
    CompactionPlanView {
        lease_id,
        partition: p,
        delete_retention_ms: config.delete_retention_ms,
        file_delete_delay_ms: config.file_delete_delay_ms,
        end_offset: sources(s, p, now_ms).last().span.last_offset,
        spans: sources(s, p, now_ms),
    }
}

/// The state after the first partition that can be compacted has been leased, and the plan.
pub open spec fn claimed(s: LogStateView, now_ms: i64, lease_ms: i64, reached: Set<PartitionKeyView>, lease_id: u128) -> (
    LogStateView,
    Result<Option<CompactionPlanView>, ControlErrorView>,
) {
    if lease_ms <= 0 {
        (s, Err(ControlErrorView::InvalidRequest("compaction lease must be positive"@)))
    } else {
        let keys = sorted_map::sorted_keys::<PartitionKey>(s.partitions.dom());
        match first_claimable(s, keys, now_ms, reached, 0) {
            None => (s, Ok(None)),
            Some(i) => {
                let p = keys[i];
                let log = MemoryPartitionView {
                    compaction_lease: Some((lease_id, numbers::clamped_i64(now_ms + lease_ms) as i64)),
                    ..s.partitions[p]
                };
                (LogStateView { partitions: s.partitions.insert(p, log), ..s }, Ok(Some(plan_for(s, p, lease_id, now_ms))))
            },
        }
    }
}

/// The state after a lease has been given back.
pub open spec fn lease_released(s: LogStateView, p: PartitionKeyView, lease_id: u128) -> LogStateView {
    if s.partitions.contains_key(p) && s.partitions[p].compaction_lease is Some && (s.partitions[p].compaction_lease->0).0 == lease_id {
        LogStateView {
            partitions: s.partitions.insert(p, MemoryPartitionView { compaction_lease: None, ..s.partitions[p] }),
            ..s
        }
    } else {
        s
    }
}

/// The partitions that could be compacted, as far as no compaction is under way.
pub open spec fn candidates(s: LogStateView, now_ms: i64) -> Map<PartitionKeyView, MemoryPartitionView> {
    sorted_map::filtered(
        s.partitions,
        |p: PartitionKeyView, log: MemoryPartitionView| log_retention::config_of(s, p.topic).compact_records && is_free(log, now_ms),
    )
}

/// How much of what could be compacted never was, for each partition.
pub open spec fn dirty_shares(s: LogStateView, now_ms: i64) -> Seq<DirtyShareView> {
    let keys = sorted_map::sorted_keys::<PartitionKey>(candidates(s, now_ms).dom());
    Seq::new(
        keys.len(),
        |i: int|
            {
                let from = sources(s, keys[i], now_ms);
                let last = s.partitions[keys[i]].compaction_last_offset;
                DirtyShareView {
                    partition: keys[i],
                    dirty_bytes: source_bytes(from, |source: CompactionSourceSpanView| is_dirty(source, last)) as u128,
                    total_bytes: source_bytes(from, |source: CompactionSourceSpanView| true) as u128,
                }
            },
    )
}

impl LogState {
    /// How much of what could be compacted never was, for each partition.
    pub fn compaction_shares(&self, now_ms: i64) -> (r: Vec<DirtyShare>)
        ensures
            r.deep_view() == dirty_shares(self.deep_view(), now_ms),
    {
        let ghost s = self.deep_view();
        let ghost may = |p: PartitionKeyView, log: MemoryPartitionView|
            log_retention::config_of(s, p.topic).compact_records && is_free(log, now_ms);
        let test = |p: &PartitionKey, log: &MemoryPartition| -> (b: bool)
            ensures b == may(p.deep_view(), log.deep_view())
        {
            let free = match log.compaction_lease {
                Some((_, until)) => until <= now_ms,
                None => true,
            };
            find_config(self, &p.topic).compact_records && free
        };
        let keys = self.partitions.keys_where(test, Ghost(may));
        let ghost all = keys.deep_view();
        assert(sorted_map::filtered(s.partitions, may) == candidates(s, now_ms));
        let mut r: Vec<DirtyShare> = Vec::new();
        let mut i: usize = 0;
        while i < keys.len()
            invariant
                i <= keys@.len(),
                r@.len() == i,
                s == self.deep_view(),
                all == keys.deep_view(),
                all.to_set() == candidates(s, now_ms).dom(),
                all == sorted_map::sorted_keys::<PartitionKey>(candidates(s, now_ms).dom()),
                forall|j: int| 0 <= j < i ==> (#[trigger] r@[j]).deep_view() == dirty_shares(s, now_ms)[j],
            decreases keys@.len() - i,
        {
            proof {
                assert(all[i as int] == keys@[i as int].deep_view());
                assert(all.to_set().contains(all[i as int]));
                assert(candidates(s, now_ms).contains_key(all[i as int]));
            }
            let from = list_sources(self, &keys[i], now_ms);
            let last: i64 = self.partitions.get(&keys[i]).unwrap().compaction_last_offset;
            let (dirty_bytes, total_bytes) = measure_sources(&from, last);
            r.push(DirtyShare { partition: keys[i].duplicate(), dirty_bytes, total_bytes });
            i = i + 1;
        }
        assert(r.deep_view() =~= dirty_shares(s, now_ms));
        r
    }

    /// Whether a partition can be compacted now.
    fn can_compact(&self, partition: &PartitionKey, spans: &Vec<CompactionSourceSpan>, now_ms: i64, ratio_reached: bool) -> (r: bool)
        requires
            self.deep_view().partitions.contains_key(partition.deep_view()),
            spans.deep_view() == sources(self.deep_view(), partition.deep_view(), now_ms),
        ensures
            forall|reached: Set<PartitionKeyView>| reached.contains(partition.deep_view()) == ratio_reached ==> r == #[trigger] is_claimable(
                self.deep_view(),
                partition.deep_view(),
                now_ms,
                reached,
            ),
    {
        assert(spans.deep_view().len() == spans@.len());
        let config = find_config(self, &partition.topic);
        let log = self.partitions.get(partition).unwrap();
        let free = match log.compaction_lease {
            Some((_, until)) => until <= now_ms,
            None => true,
        };
        let recheck = match log.compaction_recheck_at_ms {
            Some(at) => at <= now_ms,
            None => false,
        };
        config.compact_records && free && spans.len() > 0 && should_compact(
            spans,
            log.compaction_last_offset,
            ratio_reached,
            config.max_compaction_lag_ms,
            now_ms,
            recheck,
        )
    }

    /// Leases the first partition that can be compacted, when `reached` holds the partitions in
    /// which enough was never compacted.
    pub fn claim_compaction(&mut self, now_ms: i64, lease_ms: i64, reached: &SortedMap<PartitionKey, ()>, lease_id: u128) -> (r: Result<
        Option<CompactionPlan>,
        ControlError,
    >)
        ensures
            (final(self).deep_view(), error::outcome(r)) == claimed(
                old(self).deep_view(),
                now_ms,
                lease_ms,
                reached.deep_view().dom(),
                lease_id,
            ),
    {
        let ghost s = self.deep_view();
        let ghost full = reached.deep_view().dom();
        if lease_ms <= 0 {
            return Err(ControlError::InvalidRequest("compaction lease must be positive".to_owned()));
        }
        let keys = self.partitions.keys();
        let ghost all = keys.deep_view();
        let mut i: usize = 0;
        while i < keys.len()
            invariant
                i <= keys@.len(),
                lease_ms > 0,
                s == old(self).deep_view(),
                s == self.deep_view(),
                full == reached.deep_view().dom(),
                all == keys.deep_view(),
                all.to_set() == s.partitions.dom(),
                all == sorted_map::sorted_keys::<PartitionKey>(s.partitions.dom()),
                first_claimable(s, all, now_ms, full, 0) == first_claimable(s, all, now_ms, full, i as int),
            decreases keys@.len() - i,
        {
            proof {
                assert(all[i as int] == keys@[i as int].deep_view());
                assert(all.to_set().contains(all[i as int]));
                assert(s.partitions.contains_key(all[i as int]));
            }
            let spans = list_sources(self, &keys[i], now_ms);
            let ratio_reached = reached.contains_key(&keys[i]);
            assert(full.contains(all[i as int]) == ratio_reached);
            if self.can_compact(&keys[i], &spans, now_ms, ratio_reached) {
                assert(is_claimable(s, all[i as int], now_ms, full));
                assert(spans.deep_view().len() == spans@.len());
                assert(spans.deep_view()[spans@.len() - 1] == spans@[spans@.len() - 1].deep_view());
                let (delete_retention_ms, file_delete_delay_ms): (i64, i64) = {
                    let config = find_config(self, &keys[i].topic);
                    (config.delete_retention_ms, config.file_delete_delay_ms)
                };
                let end_offset: i64 = spans[spans.len() - 1].span.last_offset;
                let ghost p = all[i as int];
                let mut log = self.partitions.remove(&keys[i]).unwrap();
                log.compaction_lease = Some((lease_id, saturating_sum(now_ms, lease_ms)));
                let ghost after = log.deep_view();
                self.partitions.insert(keys[i].duplicate(), log);
                assert(s.partitions.remove(p).insert(p, after) =~= s.partitions.insert(p, after));
                return Ok(
                    Some(
                        CompactionPlan {
                            lease_id,
                            partition: keys[i].duplicate(),
                            delete_retention_ms,
                            file_delete_delay_ms,
                            end_offset,
                            spans,
                        },
                    ),
                );
            }
            assert(!is_claimable(s, all[i as int], now_ms, full));
            i = i + 1;
        }
        Ok(None)
    }

    /// Gives a lease back.
    pub fn release_compaction(&mut self, partition: &PartitionKey, lease_id: u128)
        ensures
            final(self).deep_view() == lease_released(old(self).deep_view(), partition.deep_view(), lease_id),
    {
        let ghost s = self.deep_view();
        let ghost p = partition.deep_view();
        let held = match self.partitions.get(partition) {
            Some(log) => match log.compaction_lease {
                Some((current, _)) => current == lease_id,
                None => false,
            },
            None => false,
        };
        if held {
            let mut log = self.partitions.remove(partition).unwrap();
            log.compaction_lease = None;
            let ghost after = log.deep_view();
            self.partitions.insert(partition.duplicate(), log);
            assert(s.partitions.remove(p).insert(p, after) =~= s.partitions.insert(p, after));
        }
    }
}

} // verus!
