//! What a retention pass lets go and what it keeps.

use crate::log_objects;
use crate::log_retention;
use crate::log_types::{LogStateView, MemoryPartitionView, MemoryTransactionView, StoredSpanView, TopicConfigView, TransactionStatus};
use crate::numbers;
use crate::observability;
use crate::partition::{PartitionKey, PartitionKeyView};
use crate::sorted_map;
use crate::trim_laws;
use vstd::prelude::*;

verus! {

/// How many bytes a list of spans holds.
pub open spec fn volume(spans: Seq<StoredSpanView>) -> int
    decreases spans.len(),
{
    if spans.len() == 0 {
        0
    } else {
        let first = spans[0];
        (if first.byte_end > first.byte_start {
            first.byte_end - first.byte_start
        } else {
            0
        }) + volume(spans.drop_first())
    }
}

proof fn volume_grows(spans: Seq<StoredSpanView>)
    requires
        spans.len() > 0,
    ensures
        volume(spans) == volume(spans.drop_last()) + observability::held_bytes(spans.last()),
    decreases spans.len(),
{
    if spans.len() > 1 {
        volume_grows(spans.drop_first());
        assert(spans.drop_first().drop_last() =~= spans.drop_last().drop_first());
        assert(spans.drop_first().last() == spans.last());
        assert(spans.drop_last()[0] == spans[0]);
    } else {
        assert(spans.drop_first() =~= Seq::empty());
        assert(spans.drop_last() =~= Seq::empty());
        assert(spans.last() == spans[0]);
    }
}

/// The bytes of a log are those of its spans, where each ends after it starts.
pub proof fn log_bytes_add_up(spans: Seq<StoredSpanView>)
    ensures
        observability::total_bytes(spans) == volume(spans),
        volume(spans) >= 0,
    decreases spans.len(),
{
    if spans.len() > 0 {
        log_bytes_add_up(spans.drop_last());
        volume_grows(spans);
    }
}

/// Whether the transaction that wrote a span is still open.
pub open spec fn is_unsettled(transactions: Map<u128, MemoryTransactionView>, span: StoredSpanView) -> bool {
    match span.transaction_id {
        None => false,
        Some(id) => transactions.contains_key(id) && transactions[id].status == TransactionStatus::Ongoing,
    }
}

/// Whether a span has passed the time limit of its topic.
pub open spec fn is_too_old(config: TopicConfigView, span: StoredSpanView, now_ms: i64) -> bool {
    config.retention_ms >= 0 && span.timestamp_ms <= numbers::clamped_i64(now_ms - config.retention_ms)
}

/// Whether some spans hold more than the size limit of their topic.
pub open spec fn is_too_large(config: TopicConfigView, spans: Seq<StoredSpanView>) -> bool {
    config.retention_bytes >= 0 && volume(spans) > config.retention_bytes
}

proof fn excess_is_what_passes_a_limit(
    transactions: Map<u128, MemoryTransactionView>,
    config: TopicConfigView,
    spans: Seq<StoredSpanView>,
    i: int,
    now_ms: i64,
)
    requires
        0 <= i <= spans.len(),
    ensures
        ({
            let n = i + log_retention::excess(transactions, config, spans, i, volume(spans.skip(i)), now_ms);
            &&& i <= n <= spans.len()
            &&& forall|k: int|
                i <= k < n ==> !is_unsettled(transactions, #[trigger] spans[k]) && (is_too_old(config, spans[k], now_ms) || is_too_large(
                    config,
                    spans.skip(k),
                ))
            &&& n < spans.len() ==> is_unsettled(transactions, spans[n]) || (!is_too_old(config, spans[n], now_ms) && !is_too_large(
                config,
                spans.skip(n),
            ))
        }),
    decreases spans.len() - i,
{
    let n = i + log_retention::excess(transactions, config, spans, i, volume(spans.skip(i)), now_ms);
    if i < spans.len() {
        assert(spans.skip(i)[0] == spans[i]);
        assert(spans.skip(i).drop_first() =~= spans.skip(i + 1));
        excess_is_what_passes_a_limit(transactions, config, spans, i + 1, now_ms);
    }
}

proof fn passes_go_log_by_log(s: LogStateView, keys: Seq<PartitionKeyView>, now_ms: i64, n: nat)
    requires
        n <= keys.len(),
        keys.no_duplicates(),
        forall|i: int| 0 <= i < keys.len() ==> s.partitions.contains_key(#[trigger] keys[i]),
    ensures
        ({
            let after = log_retention::partitions_retained(s, keys, now_ms, n);
            &&& after.partitions.dom() == s.partitions.dom()
            &&& after.transactions == s.transactions
            &&& after.topic_configs == s.topic_configs
            &&& after.objects == s.objects
            &&& after.unreferenced_objects == s.unreferenced_objects
            &&& forall|i: int|
                0 <= i < n ==> after.partitions[#[trigger] keys[i]] == log_retention::partition_retained(s, keys[i], now_ms).partitions[keys[i]]
            &&& forall|q: PartitionKeyView| #[trigger]
                s.partitions.contains_key(q) && !keys.take(n as int).contains(q) ==> after.partitions[q] == s.partitions[q]
        }),
    decreases n,
{
    if n > 0 {
        let m = (n - 1) as nat;
        passes_go_log_by_log(s, keys, now_ms, m);
        let before = log_retention::partitions_retained(s, keys, now_ms, m);
        let after = log_retention::partitions_retained(s, keys, now_ms, n);
        let p = keys[n - 1];
        assert(!keys.take(m as int).contains(p)) by {
            if keys.take(m as int).contains(p) {
                let j = choose|j: int| 0 <= j < m && keys.take(m as int)[j] == p;
                assert(keys[j] == keys[n - 1]);
            }
        }
        assert(before.partitions[p] == s.partitions[p]);
        assert(after.partitions.dom() =~= s.partitions.dom());
        assert forall|i: int| 0 <= i < n implies after.partitions[#[trigger] keys[i]] == log_retention::partition_retained(
            s,
            keys[i],
            now_ms,
        ).partitions[keys[i]] by {
            if i < m {
                assert(keys[i] != p);
            }
        }
        assert forall|q: PartitionKeyView| #[trigger] s.partitions.contains_key(q) && !keys.take(n as int).contains(q)
            implies after.partitions[q] == s.partitions[q] by {
            assert(keys.take(n as int)[n - 1] == p);
            assert(!keys.take(m as int).contains(q)) by {
                if keys.take(m as int).contains(q) {
                    let j = choose|j: int| 0 <= j < m && keys.take(m as int)[j] == q;
                    assert(keys.take(n as int)[j] == q);
                }
            }
        }
    }
}

/// What a retention pass does to a log: spans go from the oldest on. Each that goes was written outside
/// open transactions, and was too old, or its log with it too large. The pass stops before the first
/// span of an open transaction, or where the rest is within both limits, whichever of them the topic
/// has. A topic that does not delete records keeps them all.
pub proof fn passes_bring_logs_within_their_limits(s: LogStateView, p: PartitionKeyView, now_ms: i64, object_delete_grace_ms: i64) -> (n: int)
    requires
        s.partitions.dom().finite(),
        s.partitions.contains_key(p),
    ensures
        ({
            let after = log_retention::retained(s, now_ms, object_delete_grace_ms).0;
            let spans = s.partitions[p].spans;
            let left = after.partitions[p].spans;
            let config = s.topic_configs[p.topic];
            &&& 0 <= n <= spans.len()
            &&& left == spans.skip(n)
            &&& after.partitions.contains_key(p)
            &&& after.partitions[p].next_offset == s.partitions[p].next_offset
            &&& n == 0 ==> after.partitions[p] == s.partitions[p]
            &&& n > 0 ==> after.partitions[p].log_start_offset == if left.len() > 0 {
                left[0].base_offset
            } else {
                s.partitions[p].next_offset
            }
            &&& if s.topic_configs.contains_key(p.topic) && config.delete_records {
                &&& left.len() > 0 && !is_unsettled(s.transactions, left[0]) ==> {
                    &&& config.retention_bytes >= 0 ==> volume(left) <= config.retention_bytes
                    &&& config.retention_ms >= 0 ==> left[0].timestamp_ms > numbers::clamped_i64(now_ms - config.retention_ms)
                }
                &&& forall|k: int|
                    0 <= k < n ==> !is_unsettled(s.transactions, #[trigger] spans[k]) && (is_too_old(config, spans[k], now_ms) || is_too_large(
                        config,
                        spans.skip(k),
                    ))
            } else {
                n == 0
            }
        }),
{
    let keys = sorted_map::sorted_keys::<PartitionKey>(s.partitions.dom());
    sorted_map::finite_sets_are_listed::<PartitionKey>(s.partitions.dom());
    sorted_map::strictly_sorted_unique::<PartitionKey>(keys);
    assert forall|i: int| 0 <= i < keys.len() implies s.partitions.contains_key(#[trigger] keys[i]) by {
        assert(keys.to_set().contains(keys[i]));
    }
    passes_go_log_by_log(s, keys, now_ms, keys.len());
    assert(keys.to_set().contains(p));
    let at = choose|at: int| 0 <= at < keys.len() && keys[at] == p;
    let after = log_retention::retained(s, now_ms, object_delete_grace_ms).0;
    let spans = s.partitions[p].spans;
    let config = s.topic_configs[p.topic];
    assert(after.partitions[keys[at]] == log_retention::partition_retained(s, p, now_ms).partitions[p]);
    log_bytes_add_up(spans);
    assert(spans.skip(0) =~= spans);
    excess_is_what_passes_a_limit(s.transactions, config, spans, 0, now_ms);
    let n = log_retention::excess_of(s, p, now_ms) as int;
    if n < spans.len() {
        assert(spans.skip(n)[0] == spans[n]);
    }
    log_bytes_add_up(spans.skip(n));
    n
}

/// How many spans the first `n` logs of a list hold.
pub open spec fn spans_held(s: LogStateView, keys: Seq<PartitionKeyView>, n: nat) -> nat
    decreases n,
{
    if n == 0 {
        0
    } else {
        spans_held(s, keys, (n - 1) as nat) + s.partitions[keys[n - 1]].spans.len()
    }
}

proof fn lost_spans_are_counted(s: LogStateView, t: LogStateView, keys: Seq<PartitionKeyView>, now_ms: i64, n: nat)
    requires
        n <= keys.len(),
        forall|i: int|
            0 <= i < n ==> t.partitions[#[trigger] keys[i]] == log_retention::partition_retained(s, keys[i], now_ms).partitions[keys[i]],
    ensures
        spans_held(s, keys, n) == spans_held(t, keys, n) + log_retention::total_excess(s, keys, now_ms, n),
    decreases n,
{
    if n > 0 {
        lost_spans_are_counted(s, t, keys, now_ms, (n - 1) as nat);
        let p = keys[n - 1];
        let spans = s.partitions[p].spans;
        trim_laws::excess_is_within(s, p, spans, 0, observability::total_bytes(spans), now_ms, s.topic_configs[p.topic]);
        assert(t.partitions[keys[n - 1]] == log_retention::partition_retained(s, p, now_ms).partitions[p]);
    }
}

/// A retention pass tells how many spans all the logs have lost.
pub proof fn passes_count_what_goes(s: LogStateView, now_ms: i64, object_delete_grace_ms: i64)
    requires
        s.partitions.dom().finite(),
        log_retention::excess_fits(s, now_ms),
    ensures
        ({
            let (after, found) = log_retention::retained(s, now_ms, object_delete_grace_ms);
            let keys = sorted_map::sorted_keys::<PartitionKey>(s.partitions.dom());
            spans_held(s, keys, keys.len()) == spans_held(after, keys, keys.len()) + found.removed_spans
        }),
{
    let keys = sorted_map::sorted_keys::<PartitionKey>(s.partitions.dom());
    sorted_map::finite_sets_are_listed::<PartitionKey>(s.partitions.dom());
    sorted_map::strictly_sorted_unique::<PartitionKey>(keys);
    assert forall|i: int| 0 <= i < keys.len() implies s.partitions.contains_key(#[trigger] keys[i]) by {
        assert(keys.to_set().contains(keys[i]));
    }
    passes_go_log_by_log(s, keys, now_ms, keys.len());
    let after = log_retention::retained(s, now_ms, object_delete_grace_ms).0;
    lost_spans_are_counted(s, after, keys, now_ms, keys.len());
}

/// Whether some log of a store holds a span of an object.
pub open spec fn is_in_use(partitions: Map<PartitionKeyView, MemoryPartitionView>, key: Seq<char>) -> bool {
    exists|p: PartitionKeyView, i: int| #![trigger partitions[p].spans[i]]
        partitions.contains_key(p) && 0 <= i < partitions[p].spans.len() && partitions[p].spans[i].object_key == key
}

/// What becomes of objects in a retention pass. One that a log still uses is never offered for deletion,
/// and is no longer waited for. One that none uses is waited for from the first pass that found it so,
/// and offered once the grace, which is none where it is negative, and the time up to which it is kept
/// are over.
pub proof fn passes_offer_unused_objects(s: LogStateView, now_ms: i64, object_delete_grace_ms: i64, key: Seq<char>)
    requires
        s.partitions.dom().finite(),
        s.objects.dom().finite(),
        s.unreferenced_objects.dom().finite(),
    ensures
        ({
            let (after, found) = log_retention::retained(s, now_ms, object_delete_grace_ms);
            let since = after.unreferenced_objects[key];
            let grace = if object_delete_grace_ms > 0 {
                object_delete_grace_ms as int
            } else {
                0
            };
            &&& after.objects == s.objects
            &&& s.objects.contains_key(key) ==> (after.unreferenced_objects.contains_key(key) <==> !is_in_use(after.partitions, key))
            &&& !s.objects.contains_key(key) ==> (after.unreferenced_objects.contains_key(key) <==> s.unreferenced_objects.contains_key(key))
            &&& after.unreferenced_objects.contains_key(key) ==> since == if s.unreferenced_objects.contains_key(key) {
                s.unreferenced_objects[key]
            } else {
                now_ms
            }
            &&& found.deletable_objects.contains(key) <==> after.unreferenced_objects.contains_key(key) && numbers::clamped_i64(now_ms - since)
                >= grace && !(after.object_delete_after.contains_key(key) && after.object_delete_after[key] > now_ms)
        }),
{
    let keys = sorted_map::sorted_keys::<PartitionKey>(s.partitions.dom());
    sorted_map::finite_sets_are_listed::<PartitionKey>(s.partitions.dom());
    sorted_map::strictly_sorted_unique::<PartitionKey>(keys);
    assert forall|i: int| 0 <= i < keys.len() implies s.partitions.contains_key(#[trigger] keys[i]) by {
        assert(keys.to_set().contains(keys[i]));
    }
    passes_go_log_by_log(s, keys, now_ms, keys.len());
    let (after, found) = log_retention::retained(s, now_ms, object_delete_grace_ms);
    let trimmed = log_retention::partitions_retained(s, keys, now_ms, keys.len());
    use_is_reference(after.partitions, key);
    let due = log_retention::deletable(after, object_delete_grace_ms, now_ms);
    let known = s.objects.dom().union(s.unreferenced_objects.dom());
    assert(due.dom().subset_of(known)) by {
        assert forall|k: Seq<char>| #[trigger] due.dom().contains(k) implies known.contains(k) by {
            assert(after.unreferenced_objects.contains_key(k));
        }
    }
    vstd::set_lib::lemma_len_subset(due.dom(), known);
    sorted_map::finite_sets_are_listed::<String>(due.dom());
    assert(found.deletable_objects.to_set() == due.dom());
    assert(found.deletable_objects.contains(key) <==> found.deletable_objects.to_set().contains(key));
}

proof fn use_is_reference(partitions: Map<PartitionKeyView, MemoryPartitionView>, key: Seq<char>)
    ensures
        is_in_use(partitions, key) <==> log_objects::refers_to(partitions, key),
{
    if log_objects::refers_to(partitions, key) {
        let p = choose|p: PartitionKeyView| #[trigger] partitions.contains_key(p) && log_objects::log_refers_to(partitions[p].spans, key);
        let i = choose|i: int| 0 <= i < partitions[p].spans.len() && (#[trigger] partitions[p].spans[i]).object_key == key;
        assert(partitions[p].spans[i].object_key == key);
    }
    if is_in_use(partitions, key) {
        let (p, i) = choose|p: PartitionKeyView, i: int| #![trigger partitions[p].spans[i]]
            partitions.contains_key(p) && 0 <= i < partitions[p].spans.len() && partitions[p].spans[i].object_key == key;
        assert(log_objects::log_refers_to(partitions[p].spans, key));
    }
}

} // verus!
