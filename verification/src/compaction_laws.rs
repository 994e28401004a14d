//! What a compaction is planned over, and what it leaves.

use crate::compaction;
use crate::compaction::{CompactedObjectView, CompactedSpanDraftView, CompactionPlanView, CompactionSourceSpanView, CompactionTransactionState};
use crate::compaction_commit;
use crate::error::ControlErrorView;
use crate::log_retention;
use crate::log_types::{LogStateView, MemoryPartitionView, MemoryTransactionView, StoredSpanView, TopicConfigView, TransactionStatus};
use crate::numbers;
use crate::partition::{PartitionKey, PartitionKeyView};
use crate::sorted_map;
use crate::sorted_map::SortKey;
use vstd::prelude::*;

verus! {

/// The status of the transaction that wrote a span, where there is such a transaction.
pub open spec fn fate(transactions: Map<u128, MemoryTransactionView>, span: StoredSpanView) -> Option<TransactionStatus> {
    if span.transaction_id is Some && transactions.contains_key(span.transaction_id->0) {
        Some(transactions[span.transaction_id->0].status)
    } else {
        None
    }
}

/// Whether a span can be compacted: it is old enough, and no open transaction wrote it.
pub open spec fn is_ripe(s: LogStateView, config: TopicConfigView, span: StoredSpanView, now_ms: i64) -> bool {
    &&& span.timestamp_ms <= numbers::clamped_i64(now_ms - config.min_compaction_lag_ms)
    &&& fate(s.transactions, span) != Some(TransactionStatus::Ongoing)
}

/// The configuration under which a topic is kept.
pub open spec fn rules_of(s: LogStateView, topic: Seq<char>) -> TopicConfigView {
    if s.topic_configs.contains_key(topic) {
        s.topic_configs[topic]
    } else {
        s.default_config
    }
}

/// Whether all of the first spans of a log up to place `k` can be compacted.
pub open spec fn all_ripe(s: LogStateView, p: PartitionKeyView, now_ms: i64, k: int) -> bool {
    forall|i: int| 0 <= i <= k ==> is_ripe(s, rules_of(s, p.topic), #[trigger] s.partitions[p].spans[i], now_ms)
}

/// Whether a log calls for a compaction: its topic is compacted, nobody compacts the log, and of the
/// spans at its beginning that can be compacted there is one at all, where tombstones are due for
/// another look, or else one that never was compacted, where that is much of the log or one such span
/// has waited for too long.
pub open spec fn calls_for_compaction(s: LogStateView, p: PartitionKeyView, now_ms: i64, reached: Set<PartitionKeyView>) -> bool {
    let config = rules_of(s, p.topic);
    let log = s.partitions[p];
    &&& config.compact_records
    &&& match log.compaction_lease {
        None => true,
        Some((_, until)) => until <= now_ms,
    }
    &&& if log.compaction_recheck_at_ms is Some && log.compaction_recheck_at_ms->0 <= now_ms {
        log.spans.len() > 0 && all_ripe(s, p, now_ms, 0)
    } else {
        exists|k: int|
            0 <= k < log.spans.len() && all_ripe(s, p, now_ms, k) && (#[trigger] log.spans[k]).last_offset > log.compaction_last_offset && (
            reached.contains(p) || log.spans[k].timestamp_ms <= numbers::clamped_i64(now_ms - config.max_compaction_lag_ms))
    }
}

proof fn ripe_spans_are_counted(s: LogStateView, p: PartitionKeyView, now_ms: i64, i: int)
    requires
        0 <= i <= s.partitions[p].spans.len(),
    ensures
        ({
            let spans = s.partitions[p].spans;
            let cutoff_ms = numbers::clamped_i64(now_ms - log_retention::config_of(s, p.topic).min_compaction_lag_ms) as i64;
            let n = i + compaction::compactable(s.transactions, spans, cutoff_ms, i);
            &&& i <= n <= spans.len()
            &&& forall|k: int| i <= k < n ==> is_ripe(s, rules_of(s, p.topic), #[trigger] spans[k], now_ms)
            &&& n < spans.len() ==> !is_ripe(s, rules_of(s, p.topic), spans[n], now_ms)
        }),
    decreases s.partitions[p].spans.len() - i,
{
    if i < s.partitions[p].spans.len() {
        ripe_spans_are_counted(s, p, now_ms, i + 1);
    }
}

proof fn claimable_logs_call(s: LogStateView, p: PartitionKeyView, now_ms: i64, reached: Set<PartitionKeyView>)
    ensures
        compaction::is_claimable(s, p, now_ms, reached) <==> calls_for_compaction(s, p, now_ms, reached),
{
    let log = s.partitions[p];
    let config = rules_of(s, p.topic);
    let sources = compaction::sources(s, p, now_ms);
    ripe_spans_are_counted(s, p, now_ms, 0);
    let n = sources.len() as int;
    let last = log.compaction_last_offset;
    let cutoff_ms = numbers::clamped_i64(now_ms - config.max_compaction_lag_ms);
    if compaction::is_claimable(s, p, now_ms, reached) && !compaction::recheck_due(log, now_ms) {
        if compaction::lags(sources, last, cutoff_ms) {
            let k = choose|k: int|
                0 <= k < sources.len() && compaction::is_dirty(#[trigger] sources[k], last) && sources[k].span.timestamp_ms <= cutoff_ms;
            assert(log.spans[k].last_offset > last);
            assert(all_ripe(s, p, now_ms, k));
        } else {
            let k = choose|k: int| 0 <= k < sources.len() && compaction::is_dirty(#[trigger] sources[k], last);
            assert(log.spans[k].last_offset > last);
            assert(all_ripe(s, p, now_ms, k));
        }
    }
    if calls_for_compaction(s, p, now_ms, reached) {
        if compaction::recheck_due(log, now_ms) {
            assert(is_ripe(s, config, log.spans[0], now_ms));
            assert(n > 0);
        } else {
            let k = choose|k: int|
                0 <= k < log.spans.len() && all_ripe(s, p, now_ms, k) && (#[trigger] log.spans[k]).last_offset > last && (reached.contains(p)
                    || log.spans[k].timestamp_ms <= cutoff_ms);
            if n <= k {
                assert(is_ripe(s, config, log.spans[n], now_ms));
            }
            assert(compaction::is_dirty(sources[k], last));
        }
    }
}

proof fn the_first_is_found(s: LogStateView, keys: Seq<PartitionKeyView>, now_ms: i64, reached: Set<PartitionKeyView>, i: int)
    requires
        i >= 0,
    ensures
        match compaction::first_claimable(s, keys, now_ms, reached, i) {
            Some(at) => {
                &&& i <= at < keys.len()
                &&& compaction::is_claimable(s, keys[at], now_ms, reached)
                &&& forall|k: int| i <= k < at ==> !compaction::is_claimable(s, #[trigger] keys[k], now_ms, reached)
            },
            None => forall|k: int| i <= k < keys.len() ==> !compaction::is_claimable(s, #[trigger] keys[k], now_ms, reached),
        },
    decreases keys.len() - i,
{
    if i < keys.len() && !compaction::is_claimable(s, keys[i], now_ms, reached) {
        the_first_is_found(s, keys, now_ms, reached, i + 1);
    }
}

/// A compaction is planned wherever a log calls for one: for the first such log, in the order of
/// partitions. The log is leased for as long as was asked for, and nothing else changes. A lease must be
/// for some time.
pub proof fn logs_that_call_are_compacted(
    s: LogStateView,
    now_ms: i64,
    lease_ms: i64,
    reached: Set<PartitionKeyView>,
    lease_id: u128,
    p: PartitionKeyView,
)
    requires
        s.partitions.dom().finite(),
        s.partitions.contains_key(p),
    ensures
        ({
            let (after, answer) = compaction::claimed(s, now_ms, lease_ms, reached, lease_id);
            &&& answer is Err <==> lease_ms <= 0
            &&& answer is Err ==> after == s
            &&& match answer {
                Ok(Some(plan)) => {
                    &&& s.partitions.contains_key(plan.partition)
                    &&& calls_for_compaction(s, plan.partition, now_ms, reached)
                    &&& calls_for_compaction(s, p, now_ms, reached) ==> p == plan.partition || PartitionKey::before(plan.partition, p)
                    &&& plan.lease_id == lease_id
                    &&& after.partitions == s.partitions.insert(
                        plan.partition,
                        MemoryPartitionView {
                            compaction_lease: Some((lease_id, numbers::clamped_i64(now_ms + lease_ms) as i64)),
                            ..s.partitions[plan.partition]
                        },
                    )
                    &&& after == (LogStateView { partitions: after.partitions, ..s })
                },
                Ok(None) => after == s && !calls_for_compaction(s, p, now_ms, reached),
                Err(_) => true,
            }
        }),
{
    let keys = sorted_map::sorted_keys::<PartitionKey>(s.partitions.dom());
    sorted_map::finite_sets_are_listed::<PartitionKey>(s.partitions.dom());
    the_first_is_found(s, keys, now_ms, reached, 0);
    claimable_logs_call(s, p, now_ms, reached);
    assert(keys.to_set().contains(p));
    let k = choose|k: int| 0 <= k < keys.len() && keys[k] == p;
    match compaction::first_claimable(s, keys, now_ms, reached, 0) {
        Some(at) => {
            claimable_logs_call(s, keys[at], now_ms, reached);
            assert(keys.to_set().contains(keys[at]));
            if at < k {
                assert(PartitionKey::before(keys[at], keys[k]));
            }
            if k < at {
                assert(!compaction::is_claimable(s, keys[k], now_ms, reached));
            }
        },
        None => {
            assert(!compaction::is_claimable(s, keys[k], now_ms, reached));
        },
    }
}

/// What a plan says. Its sources are the spans at the beginning of the log that can be compacted, all of
/// them, each known by its first offset. A source is marked as committed just where its transaction was
/// committed, as aborted just where it was aborted, and as visible just where no known transaction wrote
/// it. The plan ends where its last source does, and carries the delays of the topic.
pub proof fn plans_tell_what_became_of_spans(
    s: LogStateView,
    now_ms: i64,
    lease_ms: i64,
    reached: Set<PartitionKeyView>,
    lease_id: u128,
    i: int,
)
    requires
        compaction::claimed(s, now_ms, lease_ms, reached, lease_id).1 matches Ok(Some(_)),
        0 <= i < (compaction::claimed(s, now_ms, lease_ms, reached, lease_id).1->Ok_0->0).spans.len(),
    ensures
        ({
            let plan = compaction::claimed(s, now_ms, lease_ms, reached, lease_id).1->Ok_0->0;
            let log = s.partitions[plan.partition];
            let config = rules_of(s, plan.partition.topic);
            let source = plan.spans[i];
            let fate = fate(s.transactions, log.spans[i]);
            &&& plan.spans.len() <= log.spans.len()
            &&& source.span == log.spans[i]
            &&& source.id == log.spans[i].base_offset
            &&& source.transaction_state == CompactionTransactionState::Committed <==> fate == Some(TransactionStatus::Committed)
            &&& source.transaction_state == CompactionTransactionState::Aborted <==> fate == Some(TransactionStatus::Aborted)
            &&& source.transaction_state == CompactionTransactionState::Visible <==> fate is None
            &&& is_ripe(s, config, log.spans[i], now_ms)
            &&& plan.spans.len() < log.spans.len() ==> !is_ripe(s, config, log.spans[plan.spans.len() as int], now_ms)
            &&& plan.end_offset == log.spans[plan.spans.len() - 1].last_offset
            &&& plan.delete_retention_ms == config.delete_retention_ms
            &&& plan.file_delete_delay_ms == config.file_delete_delay_ms
        }),
{
    let plan = compaction::claimed(s, now_ms, lease_ms, reached, lease_id).1->Ok_0->0;
    ripe_spans_are_counted(s, plan.partition, now_ms, 0);
    assert(is_ripe(s, rules_of(s, plan.partition.topic), s.partitions[plan.partition].spans[i], now_ms));
}

/// The bytes of the sources of a list that lie behind an offset.
pub open spec fn bytes_behind(sources: Seq<CompactionSourceSpanView>, offset: int) -> int
    decreases sources.len(),
{
    if sources.len() == 0 {
        0
    } else {
        let span = sources.last().span;
        bytes_behind(sources.drop_last(), offset) + if span.last_offset > offset && span.byte_end > span.byte_start {
            span.byte_end - span.byte_start
        } else {
            0
        }
    }
}

proof fn source_bytes_are_bytes_behind(sources: Seq<CompactionSourceSpanView>, last: i64)
    ensures
        compaction::source_bytes(sources, |source: CompactionSourceSpanView| compaction::is_dirty(source, last)) == bytes_behind(
            sources,
            last as int,
        ),
        compaction::source_bytes(sources, |source: CompactionSourceSpanView| true) == bytes_behind(sources, i64::MIN - 1),
        0 <= bytes_behind(sources, last as int) <= bytes_behind(sources, i64::MIN - 1),
    decreases sources.len(),
{
    if sources.len() > 0 {
        source_bytes_are_bytes_behind(sources.drop_last(), last);
    }
}

/// Which share of a log was never compacted: of the bytes that can be compacted, those behind the last
/// compaction. It is told of each log of a compacted topic that nobody compacts, and of no other.
pub proof fn shares_are_told_of_free_logs(s: LogStateView, now_ms: i64, p: PartitionKeyView, i: int)
    requires
        s.partitions.dom().finite(),
        s.partitions.contains_key(p),
    ensures
        ({
            let shares = compaction::dirty_shares(s, now_ms);
            let log = s.partitions[p];
            let told = exists|k: int| 0 <= k < shares.len() && (#[trigger] shares[k]).partition == p;
            &&& told <==> rules_of(s, p.topic).compact_records && match log.compaction_lease {
                None => true,
                Some((_, until)) => until <= now_ms,
            }
            &&& 0 <= i < shares.len() ==> s.partitions.contains_key(shares[i].partition)
            &&& 0 <= i < shares.len() && bytes_behind(compaction::sources(s, shares[i].partition, now_ms), i64::MIN - 1) <= u128::MAX ==> {
                let sources = compaction::sources(s, shares[i].partition, now_ms);
                &&& shares[i].dirty_bytes == bytes_behind(sources, s.partitions[shares[i].partition].compaction_last_offset as int)
                &&& shares[i].total_bytes == bytes_behind(sources, i64::MIN - 1)
            }
        }),
{
    let free = compaction::candidates(s, now_ms);
    assert(free.dom().subset_of(s.partitions.dom()));
    vstd::set_lib::lemma_len_subset(free.dom(), s.partitions.dom());
    let keys = sorted_map::sorted_keys::<PartitionKey>(free.dom());
    sorted_map::finite_sets_are_listed::<PartitionKey>(free.dom());
    let shares = compaction::dirty_shares(s, now_ms);
    if free.contains_key(p) {
        assert(keys.to_set().contains(p));
        let k = choose|k: int| 0 <= k < keys.len() && keys[k] == p;
        assert(shares[k].partition == p);
    }
    if exists|k: int| 0 <= k < shares.len() && (#[trigger] shares[k]).partition == p {
        let k = choose|k: int| 0 <= k < shares.len() && (#[trigger] shares[k]).partition == p;
        assert(keys.to_set().contains(keys[k]));
    }
    if 0 <= i < shares.len() {
        assert(keys.to_set().contains(keys[i]));
        source_bytes_are_bytes_behind(compaction::sources(s, keys[i], now_ms), s.partitions[keys[i]].compaction_last_offset);
    }
}

/// Whether a compacted span was made from a source: it lies within it, and has the same producer.
pub open spec fn is_made_from(draft: CompactedSpanDraftView, source: CompactionSourceSpanView) -> bool {
    &&& draft.source_id == source.id
    &&& draft.record_count > 0
    &&& draft.byte_start < draft.byte_end
    &&& source.span.base_offset <= draft.base_offset <= draft.last_offset <= source.span.last_offset
    &&& match (source.span.producer, draft.producer) {
        (None, None) => true,
        (Some(a), Some(b)) => a.producer_id == b.producer_id && a.producer_epoch == b.producer_epoch,
        _ => false,
    }
}

proof fn sources_are_found(sources: Seq<CompactionSourceSpanView>, id: i64)
    ensures
        match compaction_commit::source_under(sources, id) {
            Some(source) => sources.contains(source) && source.id == id,
            None => forall|i: int| 0 <= i < sources.len() ==> (#[trigger] sources[i]).id != id,
        },
    decreases sources.len(),
{
    if sources.len() > 0 {
        let rest = sources.drop_last();
        sources_are_found(rest, id);
        assert(sources[sources.len() - 1] == sources.last());
        if sources.last().id != id {
            if compaction_commit::source_under(rest, id) is Some {
                let i = choose|i: int| 0 <= i < rest.len() && rest[i] == compaction_commit::source_under(rest, id)->0;
                assert(sources[i] == rest[i]);
            } else {
                assert forall|i: int| 0 <= i < sources.len() implies (#[trigger] sources[i]).id != id by {
                    if i < rest.len() {
                        assert(rest[i].id != id);
                    }
                }
            }
        }
    }
}

proof fn checked_drafts_are_made_from_sources(
    sources: Seq<CompactionSourceSpanView>,
    used: compaction_commit::Used,
    object: CompactedObjectView,
    order: Seq<(u64, usize)>,
    n: nat,
    k: int,
)
    requires
        compaction_commit::drafts_checked(sources, used, object, order, n) is Ok,
        0 <= k < n,
    ensures
        ({
            let draft = object.spans[order[k].1 as int];
            &&& compaction_commit::source_under(sources, draft.source_id) is Some
            &&& is_made_from(draft, compaction_commit::source_under(sources, draft.source_id)->0)
            &&& draft.byte_end <= object.object.size
        }),
    decreases n,
{
    let draft = object.spans[order[k].1 as int];
    sources_are_found(sources, draft.source_id);
    if k < n - 1 {
        checked_drafts_are_made_from_sources(sources, used, object, order, (n - 1) as nat, k);
    }
}

proof fn checked_objects_are_made_from_sources(sources: Seq<CompactionSourceSpanView>, objects: Seq<CompactedObjectView>, n: nat, o: int, i: int)
    requires
        n <= objects.len(),
        compaction_commit::objects_checked(sources, objects, n) is Ok,
        0 <= o < n,
        0 <= i < objects[o].spans.len() <= usize::MAX,
    ensures
        ({
            let draft = objects[o].spans[i];
            &&& compaction_commit::source_under(sources, draft.source_id) is Some
            &&& is_made_from(draft, compaction_commit::source_under(sources, draft.source_id)->0)
            &&& draft.byte_end <= objects[o].object.size
        }),
    decreases n,
{
    if o < n - 1 {
        checked_objects_are_made_from_sources(sources, objects, (n - 1) as nat, o, i);
    } else {
        let object = objects[o];
        let before = compaction_commit::objects_checked(sources, objects, (n - 1) as nat)->Ok_0;
        let drafts = object.spans;
        let places = compaction_commit::byte_places(drafts);
        let listed = Seq::new(drafts.len(), |k: int| (drafts[k].byte_start, k as usize));
        assert forall|place: (u64, usize)| listed.to_set().contains(place) == places.contains(place) by {
            if places.contains(place) {
                assert(listed[place.1 as int] == place);
            }
        }
        assert(listed.to_set() =~= places);
        vstd::seq_lib::seq_to_set_is_finite(listed);
        sorted_map::finite_sets_are_listed::<(u64, usize)>(places);
        let order = compaction_commit::byte_order(drafts);
        let place = (drafts[i].byte_start, i as usize);
        assert(places.contains(place));
        assert(order.to_set().contains(place));
        let k = choose|k: int| 0 <= k < order.len() && order[k] == place;
        checked_drafts_are_made_from_sources(
            sources,
            compaction_commit::Used { object_keys: before.object_keys.insert(object.object.key), ..before },
            object,
            order,
            order.len(),
            k,
        );
    }
}

proof fn replacements_are_listed(plan: CompactionPlanView, objects: Seq<CompactedObjectView>, o: int, i: int)
    requires
        0 <= o < objects.len(),
        0 <= i < objects[o].spans.len(),
    ensures
        compaction_commit::replacements(plan, objects).contains(
            compaction_commit::replacement(plan, objects[o].object.key, objects[o].spans[i]),
        ),
    decreases objects.len(),
{
    let made = compaction_commit::replacement(plan, objects[o].object.key, objects[o].spans[i]);
    let rest = objects.drop_last();
    let all = compaction_commit::replacements(plan, objects);
    let first = compaction_commit::replacements(plan, rest);
    let more = compaction_commit::replacements_in(plan, objects.last());
    assert(all == first + more);
    if o < rest.len() {
        assert(rest[o] == objects[o]);
        replacements_are_listed(plan, rest, o, i);
        let k = choose|k: int| 0 <= k < first.len() && first[k] == made;
        assert(all[k] == made);
    } else {
        assert(more[i] == made);
        assert(all[first.len() + i] == made);
    }
}

proof fn listed_replacements_were_handed_in(plan: CompactionPlanView, objects: Seq<CompactedObjectView>, k: int) -> (at: (int, int))
    requires
        0 <= k < compaction_commit::replacements(plan, objects).len(),
    ensures
        0 <= at.0 < objects.len(),
        0 <= at.1 < objects[at.0].spans.len(),
        compaction_commit::replacements(plan, objects)[k] == compaction_commit::replacement(
            plan,
            objects[at.0].object.key,
            objects[at.0].spans[at.1],
        ),
    decreases objects.len(),
{
    let rest = objects.drop_last();
    let all = compaction_commit::replacements(plan, objects);
    let first = compaction_commit::replacements(plan, rest);
    let more = compaction_commit::replacements_in(plan, objects.last());
    assert(all == first + more);
    if k < first.len() {
        let at = listed_replacements_were_handed_in(plan, rest, k);
        assert(rest[at.0] == objects[at.0]);
        at
    } else {
        (objects.len() - 1, k - first.len())
    }
}

proof fn others_are_no_sources(spans: Seq<StoredSpanView>, sources: Seq<CompactionSourceSpanView>, span: StoredSpanView)
    ensures
        compaction_commit::others(spans, sources).contains(span) <==> spans.contains(span) && forall|i: int|
            0 <= i < sources.len() ==> (#[trigger] sources[i]).id != span.base_offset,
    decreases spans.len(),
{
    if spans.len() > 0 {
        let rest = spans.drop_last();
        others_are_no_sources(rest, sources, span);
        let left = compaction_commit::others(spans, sources);
        let fewer = compaction_commit::others(rest, sources);
        assert(spans.contains(span) <==> rest.contains(span) || span == spans.last()) by {
            if rest.contains(span) {
                let i = choose|i: int| 0 <= i < rest.len() && rest[i] == span;
                assert(spans[i] == span);
            }
            if spans.contains(span) {
                let i = choose|i: int| 0 <= i < spans.len() && spans[i] == span;
                if i < rest.len() {
                    assert(rest[i] == span);
                }
            }
            assert(spans[spans.len() - 1] == spans.last());
        }
        if !compaction_commit::is_source(sources, spans.last().base_offset) {
            assert(left == fewer.push(spans.last()));
            assert(left.contains(span) <==> fewer.contains(span) || span == spans.last()) by {
                if fewer.contains(span) {
                    let i = choose|i: int| 0 <= i < fewer.len() && fewer[i] == span;
                    assert(left[i] == span);
                }
                assert(left[fewer.len() as int] == spans.last());
                if left.contains(span) {
                    let i = choose|i: int| 0 <= i < left.len() && left[i] == span;
                    if i < fewer.len() {
                        assert(fewer[i] == span);
                    }
                }
            }
            assert forall|i: int| 0 <= i < sources.len() implies (#[trigger] sources[i]).id != spans.last().base_offset by {}
        } else {
            let j = choose|j: int| 0 <= j < sources.len() && (#[trigger] sources[j]).id == spans.last().base_offset;
            assert(sources[j].id == spans.last().base_offset);
        }
    }
}

proof fn ordering_keeps_spans(all: Seq<StoredSpanView>, span: StoredSpanView)
    requires
        all.len() <= usize::MAX,
    ensures
        compaction_commit::by_offset(all).contains(span) <==> all.contains(span),
{
    let places = compaction_commit::offset_places(all);
    let listed = Seq::new(all.len(), |i: int| (all[i].base_offset, i as usize));
    assert forall|place: (i64, usize)| listed.to_set().contains(place) == places.contains(place) by {
        if places.contains(place) {
            assert(listed[place.1 as int] == place);
        }
    }
    assert(listed.to_set() =~= places);
    vstd::seq_lib::seq_to_set_is_finite(listed);
    sorted_map::finite_sets_are_listed::<(i64, usize)>(places);
    let order = sorted_map::sorted_keys::<(i64, usize)>(places);
    let spans = compaction_commit::by_offset(all);
    if all.contains(span) {
        let at = choose|at: int| 0 <= at < all.len() && all[at] == span;
        let place = (span.base_offset, at as usize);
        assert(places.contains(place));
        assert(order.to_set().contains(place));
        let i = choose|i: int| 0 <= i < order.len() && order[i] == place;
        assert(spans[i] == span);
    }
    if spans.contains(span) {
        let i = choose|i: int| 0 <= i < spans.len() && spans[i] == span;
        assert(order.to_set().contains(order[i]));
    }
}

/// What an accepted compaction does to its log. Each compacted span takes its place, with its own bytes,
/// offsets and producer, and with the time and the transaction of its source; spans that were no
/// sources stay as they are; and nothing else is left. Each compacted span was made from a source of the
/// plan and lies within its object. The log counts as compacted up to the end of the plan, is free
/// again, and is looked at again when the caller says.
pub proof fn compactions_replace_their_sources(
    s: LogStateView,
    plan: CompactionPlanView,
    objects: Seq<CompactedObjectView>,
    recheck_at_ms: Option<i64>,
    now_ms: i64,
    o: int,
    i: int,
    span: StoredSpanView,
)
    requires
        compaction_commit::replaced(s.partitions[plan.partition].spans, plan, objects).len() <= usize::MAX,
        compaction_commit::compaction_committed(s, plan, objects, recheck_at_ms, now_ms).1 == Ok::<bool, ControlErrorView>(true),
        0 <= o < objects.len(),
        0 <= i < objects[o].spans.len() <= usize::MAX,
    ensures
        ({
            let after = compaction_commit::compaction_committed(s, plan, objects, recheck_at_ms, now_ms).0;
            let p = plan.partition;
            let before = s.partitions[p];
            let log = after.partitions[p];
            let draft = objects[o].spans[i];
            &&& exists|k: int, n: int|
                #![trigger plan.spans[k], log.spans[n]]
                0 <= k < plan.spans.len() && 0 <= n < log.spans.len() && is_made_from(draft, plan.spans[k]) && {
                    let made = log.spans[n];
                    &&& made.partition == p
                    &&& made.object_key == objects[o].object.key
                    &&& made.byte_start == draft.byte_start
                    &&& made.byte_end == draft.byte_end
                    &&& made.base_offset == draft.base_offset
                    &&& made.last_offset == draft.last_offset
                    &&& made.record_count == draft.record_count
                    &&& made.producer == draft.producer
                    &&& made.integrity.checksum == Some(draft.checksum)
                    &&& made.timestamp_ms == plan.spans[k].span.timestamp_ms
                    &&& made.transaction_id == plan.spans[k].span.transaction_id
                    &&& made.offsets_preserved
                }
            &&& draft.byte_end <= objects[o].object.size
            &&& before.spans.contains(span) && (forall|k: int| 0 <= k < plan.spans.len() ==> (#[trigger] plan.spans[k]).id != span.base_offset)
                ==> log.spans.contains(span)
            &&& log.spans.contains(span) ==> before.spans.contains(span) || exists|x: int, y: int|
                #![trigger objects[x].spans[y]]
                0 <= x < objects.len() && 0 <= y < objects[x].spans.len() && span.object_key == objects[x].object.key && span.base_offset
                    == objects[x].spans[y].base_offset
            &&& log.spans.contains(span) && (exists|k: int| 0 <= k < plan.spans.len() && (#[trigger] plan.spans[k]).id == span.base_offset)
                ==> exists|x: int, y: int|
                #![trigger objects[x].spans[y]]
                0 <= x < objects.len() && 0 <= y < objects[x].spans.len() && span.object_key == objects[x].object.key && span.base_offset
                    == objects[x].spans[y].base_offset
            &&& log.compaction_last_offset >= plan.end_offset
            &&& log.compaction_last_offset >= before.compaction_last_offset
            &&& log.compaction_last_offset == plan.end_offset || log.compaction_last_offset == before.compaction_last_offset
            &&& log.compaction_lease is None
            &&& log.compaction_recheck_at_ms == recheck_at_ms
            &&& after.objects.contains_key(objects[o].object.key)
            &&& !s.objects.contains_key(objects[o].object.key)
            &&& !after.staged_objects.contains_key(objects[o].object.key)
        }),
{
    let after = compaction_commit::compaction_committed(s, plan, objects, recheck_at_ms, now_ms).0;
    let before = s.partitions[plan.partition];
    let log = after.partitions[plan.partition];
    let draft = objects[o].spans[i];
    let all = compaction_commit::replaced(before.spans, plan, objects);
    let kept = compaction_commit::others(before.spans, plan.spans);
    let made = compaction_commit::replacements(plan, objects);
    assert(all == kept + made);
    checked_objects_are_made_from_sources(plan.spans, objects, objects.len(), o, i);
    sources_are_found(plan.spans, draft.source_id);
    let source = compaction_commit::source_under(plan.spans, draft.source_id)->0;
    let k = choose|k: int| 0 <= k < plan.spans.len() && plan.spans[k] == source;
    let new = compaction_commit::replacement(plan, objects[o].object.key, draft);
    replacements_are_listed(plan, objects, o, i);
    let x = choose|x: int| 0 <= x < made.len() && made[x] == new;
    assert(all[kept.len() + x] == new);
    ordering_keeps_spans(all, new);
    let n = choose|n: int| 0 <= n < log.spans.len() && log.spans[n] == new;
    assert(is_made_from(draft, plan.spans[k]) && log.spans[n] == new);
    others_are_no_sources(before.spans, plan.spans, span);
    ordering_keeps_spans(all, span);
    if kept.contains(span) {
        let j = choose|j: int| 0 <= j < kept.len() && kept[j] == span;
        assert(all[j] == span);
    }
    if log.spans.contains(span) {
        let j = choose|j: int| 0 <= j < all.len() && all[j] == span;
        if j < kept.len() {
            assert(kept[j] == span);
            assert(kept.contains(span));
        } else {
            assert(made[j - kept.len()] == span);
            let at = listed_replacements_were_handed_in(plan, objects, j - kept.len());
            assert(objects[at.0].spans[at.1].base_offset == span.base_offset);
        }
    }
    objects_are_taken_in(s.objects, s.staged_objects, objects, o);
    objects_were_not_there(s.objects, objects, o);
}

proof fn objects_are_taken_in(
    stored: Map<Seq<char>, crate::log_types::ObjectRefView>,
    notes: Map<Seq<char>, i64>,
    objects: Seq<CompactedObjectView>,
    o: int,
)
    requires
        0 <= o < objects.len(),
    ensures
        compaction_commit::with_objects(stored, objects).contains_key(objects[o].object.key),
        !compaction_commit::without_objects(notes, objects).contains_key(objects[o].object.key),
    decreases objects.len(),
{
    if o < objects.len() - 1 {
        assert(objects.drop_last()[o] == objects[o]);
        objects_are_taken_in(stored, notes, objects.drop_last(), o);
    }
}

proof fn objects_were_not_there(stored: Map<Seq<char>, crate::log_types::ObjectRefView>, objects: Seq<CompactedObjectView>, o: int)
    requires
        0 <= o < objects.len(),
        compaction_commit::first_stored(stored, objects) is None,
    ensures
        !stored.contains_key(objects[o].object.key),
    decreases objects.len(),
{
    if o > 0 {
        assert(objects.drop_first()[o - 1] == objects[o]);
        objects_were_not_there(stored, objects.drop_first(), o - 1);
    }
}

} // verus!
