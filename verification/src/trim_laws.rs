//! What holds of every log when topics come and go, records are let go and logs are compacted.

use crate::compaction;
use crate::compaction::{CompactedObjectView, CompactedSpanDraftView, CompactionPlanView, CompactionSourceSpanView};
use crate::compaction_commit;
use crate::compaction_commit::Used;
use crate::error::ControlErrorView;
use crate::log_laws;
use crate::log_objects;
use crate::log_reads;
use crate::log_retention;
use crate::log_types::{
    FetchIsolation, LogStateView, MemoryPartitionView, MemoryTransactionView, ObjectRefView, PartitionFetchView, StoredSpanView,
    TopicConfigView,
};
use crate::numbers;
use crate::partition::{PartitionKey, PartitionKeyView};
use crate::sorted_map;
use crate::topics;
use vstd::prelude::*;

verus! {

/// Whether every topic is stored under its name and has partitions, and the logs are those of the
/// topics' partitions.
pub open spec fn topics_and_logs_agree(s: LogStateView) -> bool {
    &&& topics::named(s)
    &&& forall|name: Seq<char>| #[trigger] s.topics.contains_key(name) ==> s.topics[name].partitions > 0
    &&& forall|p: PartitionKeyView| #[trigger]
        s.partitions.contains_key(p) <==> s.topics.contains_key(p.topic) && 0 <= p.partition < s.topics[p.topic].partitions
}

/// Whether every log is in order, every object that a log refers to is stored, and the logs are
/// those of the topics' partitions.
pub open spec fn is_sound(s: LogStateView) -> bool {
    log_laws::logs_are_sound(s) && log_laws::objects_are_held(s) && topics_and_logs_agree(s)
}

/// A new store is sound.
pub proof fn new_stores_are_sound(default_config: TopicConfigView)
    ensures
        is_sound(topics::empty_log(default_config)),
{
}

/// Topics that are created, grow or are deleted leave the store sound, and no other topic's log is
/// touched.
pub proof fn topics_come_and_go_soundly(
    s: LogStateView,
    name: Seq<char>,
    partitions: i32,
    config: TopicConfigView,
    refusal: Option<ControlErrorView>,
    collision: Option<ControlErrorView>,
    id: u128,
    now_ms: i64,
)
    requires
        is_sound(s),
    ensures
        is_sound(topics::created(s, name, partitions, config, refusal, collision, id).0),
        is_sound(topics::grown(s, name, partitions).0),
        s.topics.contains_key(name) ==> is_sound(topics::topic_deleted(s, s.topics[name], now_ms)),
        forall|p: PartitionKeyView| #[trigger]
            s.partitions.contains_key(p) ==> {
                &&& topics::created(s, name, partitions, config, refusal, collision, id).0.partitions[p] == s.partitions[p]
                &&& topics::grown(s, name, partitions).0.partitions[p] == s.partitions[p]
                &&& p.topic != name && s.topics.contains_key(name)
                    ==> topics::topic_deleted(s, s.topics[name], now_ms).partitions[p] == s.partitions[p]
            },
{
    let first = topics::created(s, name, partitions, config, refusal, collision, id).0;
    let second = topics::grown(s, name, partitions).0;
    assert forall|p: PartitionKeyView| #[trigger] s.partitions.contains_key(p) implies first.partitions[p] == s.partitions[p] && second.partitions[p]
        == s.partitions[p] && log_laws::log_is_sound(p, s.partitions[p]) && log_laws::spans_are_held(s.objects, s.partitions[p].spans) by {}
    assert forall|p: PartitionKeyView| #[trigger] first.partitions.contains_key(p) implies log_laws::log_is_sound(p, first.partitions[p])
        && log_laws::spans_are_held(first.objects, first.partitions[p].spans) by {
        if s.partitions.contains_key(p) {
        }
    }
    assert forall|p: PartitionKeyView| #[trigger] second.partitions.contains_key(p) implies log_laws::log_is_sound(p, second.partitions[p])
        && log_laws::spans_are_held(second.objects, second.partitions[p].spans) by {
        if s.partitions.contains_key(p) {
        }
    }
    if s.topics.contains_key(name) {
        let third = topics::topic_deleted(s, s.topics[name], now_ms);
        assert forall|p: PartitionKeyView| #[trigger] third.partitions.contains_key(p) implies log_laws::log_is_sound(p, third.partitions[p])
            && log_laws::spans_are_held(third.objects, third.partitions[p].spans) by {
            assert(s.partitions.contains_key(p));
        }
    }
}

/// A part of a log's spans, in their order, is in order.
proof fn fewer_spans_are_sound(
    p: PartitionKeyView,
    before: MemoryPartitionView,
    after: MemoryPartitionView,
    objects: Map<Seq<char>, ObjectRefView>,
    from: Seq<int>,
)
    requires
        log_laws::log_is_sound(p, before),
        log_laws::spans_are_held(objects, before.spans),
        after.next_offset == before.next_offset,
        after.log_start_offset <= after.next_offset,
        from.len() == after.spans.len(),
        forall|i: int| 0 <= i < from.len() ==> 0 <= #[trigger] from[i] < before.spans.len() && after.spans[i] == before.spans[from[i]],
        forall|i: int, j: int| 0 <= i < j < from.len() ==> #[trigger] from[i] < #[trigger] from[j],
    ensures
        log_laws::log_is_sound(p, after),
        log_laws::spans_are_held(objects, after.spans),
{
    assert forall|i: int| 0 <= i < after.spans.len() implies log_laws::span_fits(p, after.next_offset, #[trigger] after.spans[i])
        && objects.contains_key(
        after.spans[i].object_key,
    ) by {
        assert(0 <= from[i] < before.spans.len());
        assert(log_laws::span_fits(p, before.next_offset, before.spans[from[i]]));
    }
    assert forall|i: int, j: int| 0 <= i < j < after.spans.len()
        implies (#[trigger] after.spans[i]).last_offset < (#[trigger] after.spans[j]).base_offset by {
        assert(from[i] < from[j]);
        assert(before.spans[from[i]].last_offset < before.spans[from[j]].base_offset);
    }
}

/// Where the spans that reach `start` stood.
spec fn places_reaching(spans: Seq<StoredSpanView>, start: i64) -> Seq<int>
    decreases spans.len(),
{
    if spans.len() == 0 {
        Seq::empty()
    } else if spans.last().last_offset >= start {
        places_reaching(spans.drop_last(), start).push(spans.len() - 1)
    } else {
        places_reaching(spans.drop_last(), start)
    }
}

proof fn places_reaching_are_places(spans: Seq<StoredSpanView>, start: i64)
    ensures
        ({
            let from = places_reaching(spans, start);
            let left = log_retention::reaching(spans, start);
            &&& from.len() == left.len()
            &&& forall|i: int|
                0 <= i < from.len() ==> 0 <= #[trigger] from[i] < spans.len() && left[i] == spans[from[i]] && spans[from[i]].last_offset >= start
            &&& forall|i: int, j: int| 0 <= i < j < from.len() ==> #[trigger] from[i] < #[trigger] from[j]
            &&& forall|k: int| 0 <= k < spans.len() && (#[trigger] spans[k]).last_offset >= start ==> left.contains(spans[k])
        }),
    decreases spans.len(),
{
    if spans.len() > 0 {
        let fewer = spans.drop_last();
        places_reaching_are_places(fewer, start);
        let from = places_reaching(spans, start);
        let left = log_retention::reaching(spans, start);
        let before = places_reaching(fewer, start);
        let kept = log_retention::reaching(fewer, start);
        assert forall|i: int| 0 <= i < from.len() implies 0 <= #[trigger] from[i] < spans.len() && left[i] == spans[from[i]]
            && spans[from[i]].last_offset >= start by {
            if i < before.len() {
                assert(from[i] == before[i]);
                assert(fewer[before[i]] == spans[before[i]]);
            }
        }
        assert forall|i: int, j: int| 0 <= i < j < from.len() implies #[trigger] from[i] < #[trigger] from[j] by {
            assert(from[i] == before[i]);
            if j < before.len() {
                assert(from[j] == before[j]);
            }
        }
        assert forall|k: int| 0 <= k < spans.len() && (#[trigger] spans[k]).last_offset >= start implies left.contains(spans[k]) by {
            if k < fewer.len() {
                assert(fewer[k] == spans[k]);
                assert(kept.contains(spans[k]));
                let at = choose|at: int| 0 <= at < kept.len() && kept[at] == spans[k];
                assert(left[at] == spans[k]);
            } else {
                assert(left[left.len() - 1] == spans[k]);
            }
        }
    }
}

/// Deleted records leave the store sound. The log starts where the answer says, never before where it
/// started, and no other log changes.
pub proof fn deletions_keep_stores_sound(s: LogStateView, p: PartitionKeyView, before_offset: i64, now_ms: i64)
    requires
        is_sound(s),
    ensures
        ({
            let (after, answer) = log_retention::records_deleted(s, p, before_offset, now_ms);
            &&& is_sound(after)
            &&& answer is Err ==> after == s
            &&& answer is Ok ==> after.partitions[p].log_start_offset == answer->Ok_0 && answer->Ok_0 >= s.partitions[p].log_start_offset
            &&& forall|q: PartitionKeyView| #[trigger] s.partitions.contains_key(q) ==> after.partitions[q].next_offset == s.partitions[q].next_offset
            &&& forall|q: PartitionKeyView| #[trigger] s.partitions.contains_key(q) && q != p ==> after.partitions[q] == s.partitions[q]
        }),
{
    let (after, answer) = log_retention::records_deleted(s, p, before_offset, now_ms);
    if answer is Ok {
        let start = answer->Ok_0;
        let log = s.partitions[p];
        assert(log_laws::log_is_sound(p, log));
        assert(log_laws::spans_are_held(s.objects, log.spans));
        log_laws::first_open_is_the_smallest(s.transactions, log.spans);
        places_reaching_are_places(log.spans, start);
        fewer_spans_are_sound(p, log, after.partitions[p], s.objects, places_reaching(log.spans, start));
        assert forall|q: PartitionKeyView| #[trigger] after.partitions.contains_key(q) implies log_laws::log_is_sound(q, after.partitions[q])
            && log_laws::spans_are_held(after.objects, after.partitions[q].spans) by {
            assert(s.partitions.contains_key(q));
        }
        assert(after.partitions.dom() =~= s.partitions.dom());
        assert forall|q: PartitionKeyView| #[trigger] after.partitions.contains_key(q) <==> after.topics.contains_key(q.topic) && 0 <= q.partition
            < after.topics[q.topic].partitions by {
            assert(s.partitions.contains_key(q) <==> after.partitions.contains_key(q));
        }
    }
}

/// Deleted records are out of reach: a fetch before the new start is refused. Records of open
/// transactions, and what the log held from the new start on, are still there.
pub proof fn deleted_records_are_out_of_reach(
    s: LogStateView,
    p: PartitionKeyView,
    before_offset: i64,
    now_ms: i64,
    offset: i64,
    max_bytes: int,
    isolation: FetchIsolation,
    k: int,
)
    requires
        log_laws::logs_are_sound(s),
        log_retention::records_deleted(s, p, before_offset, now_ms).1 is Ok,
        offset < log_retention::records_deleted(s, p, before_offset, now_ms).1->Ok_0,
        0 <= k < s.partitions[p].spans.len(),
        ({
            let span = s.partitions[p].spans[k];
            span.last_offset >= log_retention::records_deleted(s, p, before_offset, now_ms).1->Ok_0 || (log_reads::is_open(s.transactions, span)
                && s.partitions[p].log_start_offset <= span.last_offset)
        }),
    ensures
        ({
            let (after, answer) = log_retention::records_deleted(s, p, before_offset, now_ms);
            &&& log_reads::fetch_outcome(after, p, offset, max_bytes, isolation) == Err::<PartitionFetchView, ControlErrorView>(
                ControlErrorView::OffsetOutOfRange { partition: p, offset, start: answer->Ok_0, end: s.partitions[p].next_offset },
            )
            &&& after.partitions[p].spans.contains(s.partitions[p].spans[k])
        }),
{
    let (after, answer) = log_retention::records_deleted(s, p, before_offset, now_ms);
    let log = s.partitions[p];
    let start = answer->Ok_0;
    assert(log_laws::log_is_sound(p, log));
    assert(log_laws::span_fits(p, log.next_offset, log.spans[k]));
    log_laws::first_open_is_the_smallest(s.transactions, log.spans);
    places_reaching_are_places(log.spans, start);
}

/// No more spans are let go than there are.
pub(crate) proof fn excess_is_within(
    s: LogStateView,
    p: PartitionKeyView,
    spans: Seq<StoredSpanView>,
    i: int,
    retained_bytes: int,
    now_ms: i64,
    config: TopicConfigView,
)
    requires
        0 <= i <= spans.len(),
    ensures
        ({
            let n = log_retention::excess(s.transactions, config, spans, i, retained_bytes, now_ms);
            &&& i + n <= spans.len()
            &&& forall|k: int| i <= k < i + n ==> !log_reads::is_open(s.transactions, #[trigger] spans[k])
        }),
    decreases spans.len() - i,
{
    let n = log_retention::excess(s.transactions, config, spans, i, retained_bytes, now_ms);
    if n > 0 {
        excess_is_within(s, p, spans, i + 1, retained_bytes - crate::observability::held_bytes(spans[i]), now_ms, config);
    }
}

/// A retention pass over one partition leaves the store sound, numbers no record anew, and keeps what
/// open transactions wrote. Where every span of the log reaches its start, the log starts no earlier
/// than it did.
pub proof fn retention_of_a_log_is_sound(s: LogStateView, p: PartitionKeyView, now_ms: i64)
    requires
        is_sound(s),
        s.partitions.contains_key(p),
    ensures
        ({
            let after = log_retention::partition_retained(s, p, now_ms);
            &&& is_sound(after)
            &&& after.partitions.dom() == s.partitions.dom()
            &&& after.partitions[p].next_offset == s.partitions[p].next_offset
            &&& forall|q: PartitionKeyView| #[trigger] s.partitions.contains_key(q) && q != p ==> after.partitions[q] == s.partitions[q]
            &&& forall|k: int|
                0 <= k < s.partitions[p].spans.len() && log_reads::is_open(s.transactions, #[trigger] s.partitions[p].spans[k])
                    ==> after.partitions[p].spans.contains(s.partitions[p].spans[k])
            &&& (forall|k: int| 0 <= k < s.partitions[p].spans.len()
                ==> s.partitions[p].log_start_offset <= (#[trigger] s.partitions[p].spans[k]).last_offset)
                ==> s.partitions[p].log_start_offset <= after.partitions[p].log_start_offset
        }),
{
    let after = log_retention::partition_retained(s, p, now_ms);
    let log = s.partitions[p];
    let n = log_retention::excess_of(s, p, now_ms) as int;
    assert(log_laws::log_is_sound(p, log));
    assert(log_laws::spans_are_held(s.objects, log.spans));
    if n > 0 {
        excess_is_within(s, p, log.spans, 0, crate::observability::total_bytes(log.spans), now_ms, s.topic_configs[p.topic]);
        let left = log.spans.skip(n);
        if left.len() > 0 {
            assert(left[0] == log.spans[n]);
            assert(log_laws::span_fits(p, log.next_offset, log.spans[n]));
            assert(log.spans[n - 1].last_offset < log.spans[n].base_offset);
        }
        let from = Seq::new(left.len(), |i: int| i + n);
        fewer_spans_are_sound(p, log, after.partitions[p], s.objects, from);
        assert forall|q: PartitionKeyView| #[trigger] after.partitions.contains_key(q) implies log_laws::log_is_sound(q, after.partitions[q])
            && log_laws::spans_are_held(after.objects, after.partitions[q].spans) by {
            assert(s.partitions.contains_key(q));
        }
        assert(after.partitions.dom() =~= s.partitions.dom());
        assert forall|q: PartitionKeyView| #[trigger] after.partitions.contains_key(q) <==> after.topics.contains_key(q.topic) && 0 <= q.partition
            < after.topics[q.topic].partitions by {
            assert(s.partitions.contains_key(q) <==> after.partitions.contains_key(q));
        }
        assert forall|k: int| 0 <= k < log.spans.len() && log_reads::is_open(s.transactions, #[trigger] log.spans[k])
            implies left.contains(log.spans[k]) by {
            assert(k >= n);
            assert(left[k - n] == log.spans[k]);
        }
    } else {
        assert forall|k: int| 0 <= k < log.spans.len() && log_reads::is_open(s.transactions, #[trigger] log.spans[k])
            implies log.spans.contains(log.spans[k]) by {}
    }
}

/// A retention pass over some partitions leaves the store sound.
proof fn retention_of_logs_is_sound(s: LogStateView, keys: Seq<PartitionKeyView>, now_ms: i64, n: nat)
    requires
        is_sound(s),
        n <= keys.len(),
        forall|i: int| 0 <= i < keys.len() ==> s.partitions.contains_key(#[trigger] keys[i]),
    ensures
        ({
            let after = log_retention::partitions_retained(s, keys, now_ms, n);
            &&& is_sound(after)
            &&& after.partitions.dom() == s.partitions.dom()
            &&& forall|q: PartitionKeyView| #[trigger] s.partitions.contains_key(q) ==> after.partitions[q].next_offset == s.partitions[q].next_offset
            &&& after.objects == s.objects
            &&& after.transactions == s.transactions
        }),
    decreases n,
{
    if n > 0 {
        let m = (n - 1) as nat;
        retention_of_logs_is_sound(s, keys, now_ms, m);
        let before = log_retention::partitions_retained(s, keys, now_ms, m);
        assert(s.partitions.contains_key(keys[n - 1]));
        assert(before.partitions.contains_key(keys[n - 1]));
        retention_of_a_log_is_sound(before, keys[n - 1], now_ms);
        let after = log_retention::partitions_retained(s, keys, now_ms, n);
        assert forall|q: PartitionKeyView| #[trigger] s.partitions.contains_key(q)
            implies after.partitions[q].next_offset == s.partitions[q].next_offset by {
            assert(before.partitions.contains_key(q));
        }
    }
}

/// A retention pass leaves the store sound and numbers no record anew, and no object that it allows
/// to be deleted is one that a log still refers to.
pub proof fn retention_keeps_stores_sound(s: LogStateView, now_ms: i64, object_delete_grace_ms: i64, key: Seq<char>)
    requires
        is_sound(s),
        s.partitions.dom().finite(),
        s.unreferenced_objects.dom().finite(),
        s.objects.dom().finite(),
    ensures
        ({
            let (after, found) = log_retention::retained(s, now_ms, object_delete_grace_ms);
            &&& is_sound(after)
            &&& forall|q: PartitionKeyView| #[trigger] s.partitions.contains_key(q) ==> after.partitions[q].next_offset == s.partitions[q].next_offset
            &&& found.deletable_objects.contains(key) && after.objects.contains_key(key) ==> !log_objects::refers_to(after.partitions, key)
        }),
{
    let keys = sorted_map::sorted_keys::<PartitionKey>(s.partitions.dom());
    sorted_map::finite_sets_are_listed::<PartitionKey>(s.partitions.dom());
    assert forall|i: int| 0 <= i < keys.len() implies s.partitions.contains_key(#[trigger] keys[i]) by {
        assert(keys.to_set().contains(keys[i]));
    }
    retention_of_logs_is_sound(s, keys, now_ms, keys.len());
    let trimmed = log_retention::partitions_retained(s, keys, now_ms, keys.len());
    let (after, found) = log_retention::retained(s, now_ms, object_delete_grace_ms);
    assert(after.partitions == trimmed.partitions && after.objects == trimmed.objects && after.topics == trimmed.topics);
    assert(log_laws::logs_are_sound(after)) by {
        assert forall|p: PartitionKeyView| #[trigger] after.partitions.contains_key(p) implies log_laws::log_is_sound(p, after.partitions[p]) by {
            assert(trimmed.partitions.contains_key(p));
        }
    }
    assert(log_laws::objects_are_held(after)) by {
        assert forall|p: PartitionKeyView| #[trigger] after.partitions.contains_key(p)
            implies log_laws::spans_are_held(after.objects, after.partitions[p].spans) by {
            assert(trimmed.partitions.contains_key(p));
        }
    }
    if found.deletable_objects.contains(key) && after.objects.contains_key(key) {
        let due = log_retention::deletable(after, object_delete_grace_ms, now_ms).dom();
        unreferenced_notes_are_finite(s, keys, now_ms, keys.len());
        assert(after.unreferenced_objects.dom().finite()) by {
            assert(after.unreferenced_objects.dom().subset_of(trimmed.objects.dom().union(trimmed.unreferenced_objects.dom())));
            vstd::set_lib::lemma_set_subset_finite(trimmed.objects.dom().union(trimmed.unreferenced_objects.dom()), after.unreferenced_objects.dom());
        }
        vstd::set_lib::lemma_set_subset_finite(after.unreferenced_objects.dom(), due);
        sorted_map::finite_sets_are_listed::<String>(due);
        assert(found.deletable_objects.to_set().contains(key));
        assert(due.contains(key));
        assert(after.unreferenced_objects.contains_key(key));
    }
}

/// A retention pass over some partitions leaves alone what is noted of unreferenced objects.
proof fn unreferenced_notes_are_finite(s: LogStateView, keys: Seq<PartitionKeyView>, now_ms: i64, n: nat)
    ensures
        log_retention::partitions_retained(s, keys, now_ms, n).unreferenced_objects == s.unreferenced_objects,
    decreases n,
{
    if n > 0 {
        unreferenced_notes_are_finite(s, keys, now_ms, (n - 1) as nat);
    }
}

/// Objects are deleted only where no log refers to them: the store stays sound.
pub proof fn object_deletions_keep_stores_sound(s: LogStateView, key: Seq<char>)
    requires
        is_sound(s),
    ensures
        is_sound(log_objects::deleted(s, key).0),
        log_objects::refers_to(s.partitions, key) ==> log_objects::deleted(s, key) == (s, false),
{
    let (after, _) = log_objects::deleted(s, key);
    assert forall|p: PartitionKeyView| #[trigger] after.partitions.contains_key(p) implies log_laws::log_is_sound(p, after.partitions[p])
        && log_laws::spans_are_held(after.objects, after.partitions[p].spans) by {
        assert(s.partitions.contains_key(p));
        let spans = s.partitions[p].spans;
        assert(log_laws::spans_are_held(s.objects, spans));
        assert forall|i: int| 0 <= i < spans.len() implies after.objects.contains_key((#[trigger] spans[i]).object_key) by {
            assert(s.objects.contains_key(spans[i].object_key));
            if spans[i].object_key == key {
                assert(log_objects::log_refers_to(spans, key));
            }
        }
    }
    assert forall|p: PartitionKeyView| #[trigger] after.partitions.contains_key(p) <==> after.topics.contains_key(p.topic) && 0 <= p.partition
        < after.topics[p.topic].partitions by {
        assert(s.partitions.contains_key(p) <==> after.partitions.contains_key(p));
    }
}

/// Whether a compacted span lies within its source.
spec fn lies_within(sources: Seq<CompactionSourceSpanView>, draft: CompactedSpanDraftView) -> bool {
    let source = compaction_commit::source_under(sources, draft.source_id);
    &&& source is Some
    &&& source->0.span.base_offset <= draft.base_offset <= draft.last_offset <= source->0.span.last_offset
    &&& draft.record_count > 0
    &&& draft.byte_start < draft.byte_end
    &&& compaction_commit::producer_refusal(source->0.span.producer, draft.producer) is None
}

/// What holds of the first `n` compacted spans of an object.
proof fn checked_drafts_lie_within(
    sources: Seq<CompactionSourceSpanView>,
    used: Used,
    object: CompactedObjectView,
    order: Seq<(u64, usize)>,
    n: nat,
)
    requires
        compaction_commit::drafts_checked(sources, used, object, order, n) is Ok,
    ensures
        ({
            let after = compaction_commit::drafts_checked(sources, used, object, order, n)->Ok_0.0;
            &&& used.sources.subset_of(after.sources)
            &&& forall|k: int|
                #![trigger order[k]]
                0 <= k < n ==> {
                    &&& lies_within(sources, object.spans[order[k].1 as int])
                    &&& after.sources.contains(object.spans[order[k].1 as int].source_id)
                    &&& !used.sources.contains(object.spans[order[k].1 as int].source_id)
                }
            &&& forall|k: int, l: int|
                #![trigger order[k], order[l]]
                0 <= k < l < n ==> object.spans[order[k].1 as int].source_id != object.spans[order[l].1 as int].source_id
        }),
    decreases n,
{
    if n > 0 {
        checked_drafts_lie_within(sources, used, object, order, (n - 1) as nat);
    }
}

/// What holds of the compacted spans of an object: each lies within a source that is its own.
proof fn checked_objects_lie_within(sources: Seq<CompactionSourceSpanView>, used: Used, object: CompactedObjectView)
    requires
        compaction_commit::object_checked(sources, used, object) is Ok,
        object.spans.len() <= usize::MAX,
    ensures
        ({
            let after = compaction_commit::object_checked(sources, used, object)->Ok_0;
            &&& used.sources.subset_of(after.sources)
            &&& forall|i: int|
                0 <= i < object.spans.len() ==> {
                    &&& lies_within(sources, #[trigger] object.spans[i])
                    &&& after.sources.contains(object.spans[i].source_id)
                    &&& !used.sources.contains(object.spans[i].source_id)
                }
            &&& forall|i: int, j: int|
                0 <= i < j < object.spans.len() ==> (#[trigger] object.spans[i]).source_id != (#[trigger] object.spans[j]).source_id
        }),
{
    let drafts = object.spans;
    let order = compaction_commit::byte_order(drafts);
    let places = compaction_commit::byte_places(drafts);
    let listed = Seq::new(drafts.len(), |i: int| (drafts[i].byte_start, i as usize));
    assert forall|place: (u64, usize)| listed.to_set().contains(place) == places.contains(place) by {
        if places.contains(place) {
            assert(listed[place.1 as int] == place);
        }
    }
    assert(listed.to_set() =~= places);
    vstd::seq_lib::seq_to_set_is_finite(listed);
    sorted_map::finite_sets_are_listed::<(u64, usize)>(places);
    let entered = Used { object_keys: used.object_keys.insert(object.object.key), ..used };
    checked_drafts_lie_within(sources, entered, object, order, order.len());
    assert forall|i: int| 0 <= i < drafts.len() implies #[trigger] order.contains((drafts[i].byte_start, i as usize)) by {
        assert(places.contains((drafts[i].byte_start, i as usize)));
        assert(order.to_set().contains((drafts[i].byte_start, i as usize)));
    }
    let after = compaction_commit::object_checked(sources, used, object)->Ok_0;
    assert forall|i: int| 0 <= i < drafts.len() implies {
        &&& lies_within(sources, #[trigger] drafts[i])
        &&& after.sources.contains(drafts[i].source_id)
        &&& !used.sources.contains(drafts[i].source_id)
    } by {
        let place = (drafts[i].byte_start, i as usize);
        assert(order.contains(place));
        let k = choose|k: int| 0 <= k < order.len() && order[k] == place;
        assert(drafts[order[k].1 as int] == drafts[i]);
    }
    assert forall|i: int, j: int| 0 <= i < j < drafts.len() implies (#[trigger] drafts[i]).source_id != (#[trigger] drafts[j]).source_id by {
        let first = (drafts[i].byte_start, i as usize);
        let second = (drafts[j].byte_start, j as usize);
        assert(order.contains(first) && order.contains(second));
        let k = choose|k: int| 0 <= k < order.len() && order[k] == first;
        let l = choose|l: int| 0 <= l < order.len() && order[l] == second;
        assert(drafts[order[k].1 as int] == drafts[i] && drafts[order[l].1 as int] == drafts[j]);
        assert(k != l);
        if k < l {
        } else {
        }
    }
}

/// The compacted spans of some objects, one behind the other, as they were handed in.
spec fn all_drafts(objects: Seq<CompactedObjectView>) -> Seq<(Seq<char>, CompactedSpanDraftView)>
    decreases objects.len(),
{
    if objects.len() == 0 {
        Seq::empty()
    } else {
        all_drafts(objects.drop_last()) + Seq::new(objects.last().spans.len(), |i: int| (objects.last().object.key, objects.last().spans[i]))
    }
}

/// What holds of the compacted spans of the first `n` objects.
proof fn all_drafts_lie_within(plan: CompactionPlanView, objects: Seq<CompactedObjectView>, n: nat)
    requires
        n <= objects.len(),
        compaction_commit::objects_checked(plan.spans, objects, n) is Ok,
        compaction_commit::replacements(plan, objects.take(n as int)).len() <= usize::MAX,
    ensures
        ({
            let used = compaction_commit::objects_checked(plan.spans, objects, n)->Ok_0;
            let drafts = all_drafts(objects.take(n as int));
            let made = compaction_commit::replacements(plan, objects.take(n as int));
            let stored = compaction_commit::with_objects(Map::empty(), objects.take(n as int));
            &&& made.len() == drafts.len()
            &&& forall|i: int|
                #![trigger drafts[i]]
                0 <= i < drafts.len() ==> {
                    &&& made[i] == compaction_commit::replacement(plan, drafts[i].0, drafts[i].1)
                    &&& lies_within(plan.spans, drafts[i].1)
                    &&& used.sources.contains(drafts[i].1.source_id)
                    &&& stored.contains_key(drafts[i].0)
                }
            &&& forall|i: int, j: int|
                #![trigger drafts[i], drafts[j]]
                0 <= i < j < drafts.len() ==> drafts[i].1.source_id != drafts[j].1.source_id
        }),
    decreases n,
{
    let some = objects.take(n as int);
    if n > 0 {
        let m = (n - 1) as nat;
        let fewer = objects.take(m as int);
        assert(some.drop_last() =~= fewer);
        assert(some.last() == objects[m as int]);
        let object = objects[m as int];
        let made = compaction_commit::replacements(plan, some);
        assert(made == compaction_commit::replacements(plan, fewer) + compaction_commit::replacements_in(plan, object));
        all_drafts_lie_within(plan, objects, m);
        let before = compaction_commit::objects_checked(plan.spans, objects, m)->Ok_0;
        checked_objects_lie_within(plan.spans, before, object);
        let earlier = all_drafts(fewer);
        let drafts = all_drafts(some);
        let more = Seq::new(object.spans.len(), |i: int| (object.object.key, object.spans[i]));
        assert(drafts == earlier + more);
        let used = compaction_commit::objects_checked(plan.spans, objects, n)->Ok_0;
        assert forall|i: int| #![trigger drafts[i]] 0 <= i < drafts.len() implies {
            &&& made[i] == compaction_commit::replacement(plan, drafts[i].0, drafts[i].1)
            &&& lies_within(plan.spans, drafts[i].1)
            &&& used.sources.contains(drafts[i].1.source_id)
            &&& compaction_commit::with_objects(Map::empty(), some).contains_key(drafts[i].0)
        } by {
            if i < earlier.len() {
                assert(drafts[i] == earlier[i]);
            } else {
                let k = i - earlier.len();
                assert(drafts[i] == more[k]);
                assert(lies_within(plan.spans, object.spans[k]));
            }
        }
        assert forall|i: int, j: int| #![trigger drafts[i], drafts[j]] 0 <= i < j < drafts.len()
            implies drafts[i].1.source_id != drafts[j].1.source_id by {
            if j < earlier.len() {
                assert(drafts[i] == earlier[i] && drafts[j] == earlier[j]);
            } else {
                let l = j - earlier.len();
                assert(drafts[j] == more[l]);
                assert(!before.sources.contains(object.spans[l].source_id));
                if i < earlier.len() {
                    assert(drafts[i] == earlier[i]);
                } else {
                    let k = i - earlier.len();
                    assert(drafts[i] == more[k]);
                    assert(object.spans[k].source_id != object.spans[l].source_id);
                }
            }
        }
    } else {
        assert(some.len() == 0);
    }
}

/// Where the spans stood that are no source.
spec fn places_of_others(spans: Seq<StoredSpanView>, sources: Seq<CompactionSourceSpanView>) -> Seq<int>
    decreases spans.len(),
{
    if spans.len() == 0 {
        Seq::empty()
    } else if compaction_commit::is_source(sources, spans.last().base_offset) {
        places_of_others(spans.drop_last(), sources)
    } else {
        places_of_others(spans.drop_last(), sources).push(spans.len() - 1)
    }
}

proof fn places_of_others_are_places(spans: Seq<StoredSpanView>, sources: Seq<CompactionSourceSpanView>)
    ensures
        ({
            let from = places_of_others(spans, sources);
            let left = compaction_commit::others(spans, sources);
            &&& from.len() == left.len()
            &&& forall|i: int|
                0 <= i < from.len() ==> 0 <= #[trigger] from[i] < spans.len() && left[i] == spans[from[i]] && !compaction_commit::is_source(
                    sources,
                    spans[from[i]].base_offset,
                )
            &&& forall|i: int, j: int| 0 <= i < j < from.len() ==> #[trigger] from[i] < #[trigger] from[j]
            &&& forall|k: int|
                0 <= k < spans.len() && !compaction_commit::is_source(sources, (#[trigger] spans[k]).base_offset) ==> left.contains(spans[k])
        }),
    decreases spans.len(),
{
    if spans.len() > 0 {
        let fewer = spans.drop_last();
        places_of_others_are_places(fewer, sources);
        let from = places_of_others(spans, sources);
        let left = compaction_commit::others(spans, sources);
        let before = places_of_others(fewer, sources);
        let kept = compaction_commit::others(fewer, sources);
        assert forall|i: int| 0 <= i < from.len() implies 0 <= #[trigger] from[i] < spans.len() && left[i] == spans[from[i]]
            && !compaction_commit::is_source(
            sources,
            spans[from[i]].base_offset,
        ) by {
            if i < before.len() {
                assert(from[i] == before[i]);
                assert(fewer[before[i]] == spans[before[i]]);
            }
        }
        assert forall|i: int, j: int| 0 <= i < j < from.len() implies #[trigger] from[i] < #[trigger] from[j] by {
            assert(from[i] == before[i]);
            if j < before.len() {
                assert(from[j] == before[j]);
            }
        }
        assert forall|k: int| 0 <= k < spans.len() && !compaction_commit::is_source(sources, (#[trigger] spans[k]).base_offset)
            implies left.contains(spans[k]) by {
            if k < fewer.len() {
                assert(fewer[k] == spans[k]);
                assert(kept.contains(spans[k]));
                let at = choose|at: int| 0 <= at < kept.len() && kept[at] == spans[k];
                assert(left[at] == spans[k]);
            } else {
                assert(left[left.len() - 1] == spans[k]);
            }
        }
    }
}

/// A span that is found by its offset starts there.
proof fn spans_at_start_there(spans: Seq<StoredSpanView>, base: i64)
    requires
        compaction_commit::span_at(spans, base) is Some,
    ensures
        spans.contains(compaction_commit::span_at(spans, base)->0),
        (compaction_commit::span_at(spans, base)->0).base_offset == base,
    decreases spans.len(),
{
    if spans.last().base_offset == base {
        assert(spans[spans.len() - 1].base_offset == base);
    } else {
        spans_at_start_there(spans.drop_last(), base);
        let k = choose|k: int| 0 <= k < spans.drop_last().len() && spans.drop_last()[k] == compaction_commit::span_at(spans, base)->0;
        assert(spans[k] == spans.drop_last()[k]);
    }
}

/// A source that is found by its id has it.
proof fn sources_have_their_ids(sources: Seq<CompactionSourceSpanView>, id: i64)
    requires
        compaction_commit::source_under(sources, id) is Some,
    ensures
        sources.contains(compaction_commit::source_under(sources, id)->0),
        (compaction_commit::source_under(sources, id)->0).id == id,
    decreases sources.len(),
{
    if sources.last().id == id {
        assert(sources[sources.len() - 1].id == id);
    } else {
        sources_have_their_ids(sources.drop_last(), id);
        let k = choose|k: int| 0 <= k < sources.drop_last().len() && sources.drop_last()[k] == compaction_commit::source_under(sources, id)->0;
        assert(sources[k] == sources.drop_last()[k]);
    }
}

/// Whether a span is one of a log, or lies within one of the log and keeps its transaction, its time
/// and its producer.
pub open spec fn stems_from(spans: Seq<StoredSpanView>, k: int, span: StoredSpanView) -> bool {
    &&& 0 <= k < spans.len()
    &&& spans[k].base_offset <= span.base_offset <= span.last_offset <= spans[k].last_offset
    &&& span.partition == spans[k].partition
    &&& span.transaction_id == spans[k].transaction_id
    &&& span.timestamp_ms == spans[k].timestamp_ms
    &&& compaction_commit::producer_refusal(spans[k].producer, span.producer) is None
}

/// Whether a span stems from some span of a log.
pub open spec fn stems_from_some(spans: Seq<StoredSpanView>, span: StoredSpanView) -> bool {
    exists|k: int| #[trigger] stems_from(spans, k, span)
}

/// Where each span stems from, once compacted spans have taken the place of their sources.
proof fn replaced_spans_stem_from_the_log(
    p: PartitionKeyView,
    log: MemoryPartitionView,
    plan: CompactionPlanView,
    objects: Seq<CompactedObjectView>,
    stored: Map<Seq<char>, ObjectRefView>,
) -> (from: Seq<int>)
    requires
        log_laws::log_is_sound(p, log),
        log_laws::spans_are_held(stored, log.spans),
        plan.partition == p,
        !compaction_commit::is_outdated(log.spans, plan.spans),
        compaction_commit::replacement_refusal(plan, objects) is None,
        compaction_commit::replaced(log.spans, plan, objects).len() <= usize::MAX,
    ensures
        ({
            let all = compaction_commit::replaced(log.spans, plan, objects);
            &&& from.len() == all.len()
            &&& forall|i: int|
                #![trigger all[i]]
                0 <= i < all.len() ==> {
                    &&& stems_from(log.spans, from[i], all[i])
                    &&& log_laws::span_fits(p, log.next_offset, all[i])
                    &&& compaction_commit::with_objects(stored, objects).contains_key(all[i].object_key)
                }
            &&& forall|i: int, j: int| #![trigger from[i], from[j]] 0 <= i < j < all.len() ==> from[i] != from[j]
            &&& forall|k: int|
                0 <= k < log.spans.len() && !compaction_commit::is_source(plan.spans, (#[trigger] log.spans[k]).base_offset)
                    ==> all.contains(log.spans[k])
        }),
{
    let spans = log.spans;
    let kept = compaction_commit::others(spans, plan.spans);
    let made = compaction_commit::replacements(plan, objects);
    let all = compaction_commit::replaced(spans, plan, objects);
    let drafts = all_drafts(objects);
    assert(objects.take(objects.len() as int) =~= objects);
    all_drafts_lie_within(plan, objects, objects.len());
    places_of_others_are_places(spans, plan.spans);
    with_objects_adds(stored, objects);
    let kept_from = places_of_others(spans, plan.spans);
    let made_from = Seq::new(
        drafts.len(),
        |i: int| choose|k: int| 0 <= k < spans.len() && spans[k] == compaction_commit::source_under(plan.spans, drafts[i].1.source_id)->0.span,
    );
    assert forall|i: int| #![trigger drafts[i]] 0 <= i < drafts.len() implies {
        &&& 0 <= made_from[i] < spans.len()
        &&& spans[made_from[i]] == compaction_commit::source_under(plan.spans, drafts[i].1.source_id)->0.span
        &&& spans[made_from[i]].base_offset == drafts[i].1.source_id
        &&& compaction_commit::is_source(plan.spans, drafts[i].1.source_id)
    } by {
        let id = drafts[i].1.source_id;
        assert(lies_within(plan.spans, drafts[i].1));
        sources_have_their_ids(plan.spans, id);
        let source = compaction_commit::source_under(plan.spans, id)->0;
        let h = choose|h: int| 0 <= h < plan.spans.len() && plan.spans[h] == source;
        assert(compaction_commit::span_at(spans, plan.spans[h].id) == Some(plan.spans[h].span));
        spans_at_start_there(spans, id);
        let k = choose|k: int| 0 <= k < spans.len() && spans[k] == source.span;
        assert(spans[k] == source.span);
    }
    let from = kept_from + made_from;
    assert forall|i: int| #![trigger all[i]] 0 <= i < all.len() implies {
        &&& stems_from(spans, from[i], all[i])
        &&& log_laws::span_fits(p, log.next_offset, all[i])
        &&& compaction_commit::with_objects(stored, objects).contains_key(all[i].object_key)
    } by {
        if i < kept.len() {
            assert(from[i] == kept_from[i]);
            assert(all[i] == kept[i]);
            assert(log_laws::span_fits(p, log.next_offset, spans[kept_from[i]]));
            assert(stored.contains_key(spans[kept_from[i]].object_key));
        } else {
            let k = i - kept.len();
            assert(from[i] == made_from[k]);
            assert(all[i] == made[k]);
            assert(lies_within(plan.spans, drafts[k].1));
            assert(log_laws::span_fits(p, log.next_offset, spans[made_from[k]]));
        }
    }
    assert forall|i: int, j: int| #![trigger from[i], from[j]] 0 <= i < j < all.len() implies from[i] != from[j] by {
        if j < kept.len() {
            assert(kept_from[i] < kept_from[j]);
        } else {
            let l = j - kept.len();
            assert(from[j] == made_from[l]);
            assert(compaction_commit::is_source(plan.spans, drafts[l].1.source_id));
            if i < kept.len() {
                assert(from[i] == kept_from[i]);
                assert(!compaction_commit::is_source(plan.spans, spans[kept_from[i]].base_offset));
            } else {
                let k = i - kept.len();
                assert(from[i] == made_from[k]);
                assert(drafts[k].1.source_id != drafts[l].1.source_id);
            }
        }
    }
    assert forall|k: int| 0 <= k < spans.len() && !compaction_commit::is_source(plan.spans, (#[trigger] spans[k]).base_offset)
        implies all.contains(spans[k]) by {
        assert(kept.contains(spans[k]));
        let at = choose|at: int| 0 <= at < kept.len() && kept[at] == spans[k];
        assert(all[at] == spans[k]);
    }
    from
}

/// Compacted objects are stored beside the objects that are there.
proof fn with_objects_adds(stored: Map<Seq<char>, ObjectRefView>, objects: Seq<CompactedObjectView>)
    ensures
        forall|key: Seq<char>| #[trigger]
            compaction_commit::with_objects(stored, objects).contains_key(key) <==> stored.contains_key(key) || compaction_commit::with_objects(
                Map::empty(),
                objects,
            ).contains_key(key),
    decreases objects.len(),
{
    if objects.len() > 0 {
        let fewer = objects.drop_last();
        with_objects_adds(stored, fewer);
        assert forall|key: Seq<char>| #[trigger] compaction_commit::with_objects(stored, objects).contains_key(key) <==> stored.contains_key(key)
            || compaction_commit::with_objects(Map::empty(), objects).contains_key(key) by {
            assert(compaction_commit::with_objects(stored, objects).contains_key(key) <==> compaction_commit::with_objects(stored, fewer).contains_key(key)
                || key == objects.last().object.key);
        }
    }
}

/// What comes of a compaction: the store stays sound, no record is numbered anew and no log starts
/// elsewhere. Where the result is accepted, each span of the log that was no source is still there,
/// and each span stems from one that was there. Otherwise no log has changed its spans.
pub proof fn compactions_keep_stores_sound(
    s: LogStateView,
    plan: CompactionPlanView,
    objects: Seq<CompactedObjectView>,
    recheck_at_ms: Option<i64>,
    now_ms: i64,
)
    requires
        is_sound(s),
        compaction_commit::replaced(s.partitions[plan.partition].spans, plan, objects).len() <= usize::MAX,
    ensures
        ({
            let (after, answer) = compaction_commit::compaction_committed(s, plan, objects, recheck_at_ms, now_ms);
            let p = plan.partition;
            &&& is_sound(after)
            &&& after.partitions.dom() == s.partitions.dom()
            &&& forall|q: PartitionKeyView| #[trigger]
                s.partitions.contains_key(q) ==> {
                    &&& after.partitions[q].next_offset == s.partitions[q].next_offset
                    &&& after.partitions[q].log_start_offset == s.partitions[q].log_start_offset
                    &&& q != p || answer != Ok::<bool, ControlErrorView>(true) ==> after.partitions[q].spans == s.partitions[q].spans
                }
            &&& answer == Ok::<bool, ControlErrorView>(true) ==> {
                &&& forall|k: int|
                    0 <= k < s.partitions[p].spans.len() && !compaction_commit::is_source(
                        plan.spans,
                        (#[trigger] s.partitions[p].spans[k]).base_offset,
                    ) ==> after.partitions[p].spans.contains(s.partitions[p].spans[k])
                &&& forall|i: int|
                    0 <= i < after.partitions[p].spans.len() ==> stems_from_some(s.partitions[p].spans, #[trigger] after.partitions[p].spans[i])
            }
        }),
{
    let (after, answer) = compaction_commit::compaction_committed(s, plan, objects, recheck_at_ms, now_ms);
    let p = plan.partition;
    assert(after.partitions.dom() =~= s.partitions.dom());
    let log = s.partitions[p];
    if s.partitions.contains_key(p) {
        assert(log_laws::log_is_sound(p, log));
        assert(log_laws::spans_are_held(s.objects, log.spans));
    }
    if answer == Ok::<bool, ControlErrorView>(true) {
        let all = compaction_commit::replaced(log.spans, plan, objects);
        let from = replaced_spans_stem_from_the_log(p, log, plan, objects, s.objects);
        let places = compaction_commit::offset_places(all);
        let listed = Seq::new(all.len(), |i: int| (all[i].base_offset, i as usize));
        assert forall|place: (i64, usize)| listed.to_set().contains(place) == places.contains(place) by {
            if places.contains(place) {
                assert(listed[place.1 as int] == place);
            }
        }
        assert(listed.to_set() =~= places);
        vstd::seq_lib::seq_to_set_is_finite(listed);
        sorted_map::finite_sets_are_listed::<(i64, usize)>(places);
        let order = sorted_map::sorted_keys::<(i64, usize)>(places);
        let spans = after.partitions[p].spans;
        assert(spans == compaction_commit::by_offset(all));
        assert forall|i: int| 0 <= i < order.len() implies (#[trigger] order[i]).1 < all.len()
            && all[order[i].1 as int].base_offset == order[i].0 && spans[i]
            == all[order[i].1 as int] by {
            assert(order.to_set().contains(order[i]));
        }
        assert forall|i: int| 0 <= i < spans.len() implies log_laws::span_fits(p, log.next_offset, #[trigger] spans[i]) && after.objects.contains_key(
            spans[i].object_key,
        ) && stems_from_some(log.spans, spans[i]) by {
            let at = order[i].1 as int;
            assert(all[at] == spans[i]);
            assert(stems_from(log.spans, from[at], all[at]));
        }
        assert forall|i: int, j: int| 0 <= i < j < spans.len() implies (#[trigger] spans[i]).last_offset < (#[trigger] spans[j]).base_offset by {
            let a = order[i].1 as int;
            let b = order[j].1 as int;
            assert(<(i64, usize) as sorted_map::SortKey>::before(order[i], order[j]));
            sorted_map::strictly_sorted_unique::<(i64, usize)>(order);
            assert(order[i] != order[j]);
            assert(a != b);
            assert(all[a].base_offset != all[b].base_offset) by {
                if a < b {
                } else {
                }
            }
            assert(from[a] != from[b]) by {
                if a < b {
                } else {
                }
            }
            assert(stems_from(log.spans, from[a], all[a]));
            assert(stems_from(log.spans, from[b], all[b]));
            if from[a] < from[b] {
                assert(log.spans[from[a]].last_offset < log.spans[from[b]].base_offset);
            } else {
                assert(log.spans[from[b]].last_offset < log.spans[from[a]].base_offset);
            }
        }
        assert(log_laws::log_is_sound(p, after.partitions[p]));
        assert forall|q: PartitionKeyView| #[trigger] after.partitions.contains_key(q) implies log_laws::log_is_sound(q, after.partitions[q])
            && log_laws::spans_are_held(after.objects, after.partitions[q].spans) by {
            assert(s.partitions.contains_key(q));
            if q != p {
                with_objects_adds(s.objects, objects);
                assert(log_laws::spans_are_held(s.objects, s.partitions[q].spans));
            }
        }
        assert forall|k: int| 0 <= k < log.spans.len()
            && !compaction_commit::is_source(plan.spans, (#[trigger] log.spans[k]).base_offset) implies spans.contains(
            log.spans[k],
        ) by {
            assert(all.contains(log.spans[k]));
            let at = choose|at: int| 0 <= at < all.len() && all[at] == log.spans[k];
            let place = (all[at].base_offset, at as usize);
            assert(places.contains(place));
            assert(order.to_set().contains(place));
            let i = choose|i: int| 0 <= i < order.len() && order[i] == place;
            assert(spans[i] == log.spans[k]);
        }
    } else {
        assert forall|q: PartitionKeyView| #[trigger] after.partitions.contains_key(q) implies log_laws::log_is_sound(q, after.partitions[q])
            && log_laws::spans_are_held(after.objects, after.partitions[q].spans) by {
            assert(s.partitions.contains_key(q));
        }
    }
    assert forall|q: PartitionKeyView| #[trigger] after.partitions.contains_key(q) <==> after.topics.contains_key(q.topic) && 0 <= q.partition
        < after.topics[q.topic].partitions by {
        assert(s.partitions.contains_key(q) <==> after.partitions.contains_key(q));
    }
}

/// Leases are handed out and given back without touching what logs hold: the store stays sound.
pub proof fn leases_keep_stores_sound(
    s: LogStateView,
    now_ms: i64,
    lease_ms: i64,
    reached: Set<PartitionKeyView>,
    lease_id: u128,
    p: PartitionKeyView,
)
    requires
        is_sound(s),
        s.partitions.dom().finite(),
    ensures
        is_sound(compaction::claimed(s, now_ms, lease_ms, reached, lease_id).0),
        is_sound(compaction::lease_released(s, p, lease_id)),
{
    let keys = sorted_map::sorted_keys::<PartitionKey>(s.partitions.dom());
    sorted_map::finite_sets_are_listed::<PartitionKey>(s.partitions.dom());
    let (first, _) = compaction::claimed(s, now_ms, lease_ms, reached, lease_id);
    first_claimable_is_within(s, keys, now_ms, reached, 0);
    let second = compaction::lease_released(s, p, lease_id);
    assert forall|q: PartitionKeyView| #[trigger] s.partitions.contains_key(q) implies log_laws::log_is_sound(q, first.partitions[q])
        && log_laws::spans_are_held(s.objects, first.partitions[q].spans) && log_laws::log_is_sound(q, second.partitions[q])
            && log_laws::spans_are_held(
        s.objects,
        second.partitions[q].spans,
    ) by {}
    assert forall|i: int| 0 <= i < keys.len() implies s.partitions.contains_key(#[trigger] keys[i]) by {
        assert(keys.to_set().contains(keys[i]));
    }
    assert(first.partitions.dom() =~= s.partitions.dom());
    assert(second.partitions.dom() =~= s.partitions.dom());
    assert forall|q: PartitionKeyView| #[trigger] first.partitions.contains_key(q) == s.partitions.contains_key(q) by {}
    assert forall|q: PartitionKeyView| #[trigger] second.partitions.contains_key(q) == s.partitions.contains_key(q) by {}
}

/// The place of the first partition that can be compacted is a place.
proof fn first_claimable_is_within(s: LogStateView, keys: Seq<PartitionKeyView>, now_ms: i64, reached: Set<PartitionKeyView>, i: int)
    ensures
        match compaction::first_claimable(s, keys, now_ms, reached, i) {
            Some(at) => 0 <= at < keys.len(),
            None => true,
        },
    decreases keys.len() - i,
{
    if 0 <= i < keys.len() && !compaction::is_claimable(s, keys[i], now_ms, reached) {
        first_claimable_is_within(s, keys, now_ms, reached, i + 1);
    }
}

/// The first partition that can be compacted can be.
proof fn first_claimable_is_claimable(s: LogStateView, keys: Seq<PartitionKeyView>, now_ms: i64, reached: Set<PartitionKeyView>, i: int)
    requires
        i >= 0,
        compaction::first_claimable(s, keys, now_ms, reached, i) is Some,
    ensures
        compaction::is_claimable(s, keys[compaction::first_claimable(s, keys, now_ms, reached, i)->0], now_ms, reached),
    decreases keys.len() - i,
{
    if i < keys.len() && !compaction::is_claimable(s, keys[i], now_ms, reached) {
        first_claimable_is_claimable(s, keys, now_ms, reached, i + 1);
    }
}

/// One compaction of a log at a time: while a lease lasts, nobody else is given a lease of the same
/// log; once somebody else has one, the result of the earlier compaction is turned down and changes
/// nothing.
pub proof fn leases_are_exclusive(
    s: LogStateView,
    now_ms: i64,
    lease_ms: i64,
    reached: Set<PartitionKeyView>,
    lease_id: u128,
    later_ms: i64,
    later_lease_ms: i64,
    later_reached: Set<PartitionKeyView>,
    other_id: u128,
    objects: Seq<CompactedObjectView>,
    recheck_at_ms: Option<i64>,
)
    requires
        s.partitions.dom().finite(),
        compaction::claimed(s, now_ms, lease_ms, reached, lease_id).1 matches Ok(Some(_)),
        other_id != lease_id,
    ensures
        ({
            let (leased, first) = compaction::claimed(s, now_ms, lease_ms, reached, lease_id);
            let (after, second) = compaction::claimed(leased, later_ms, later_lease_ms, later_reached, other_id);
            let plan = first->Ok_0->0;
            second matches Ok(Some(other)) && other.partition == plan.partition ==> {
                &&& now_ms + lease_ms <= later_ms || later_ms == i64::MAX
                &&& compaction_commit::compaction_committed(after, plan, objects, recheck_at_ms, later_ms) == (
                    after,
                    Ok::<bool, ControlErrorView>(false),
                )
            }
        }),
{
    let (leased, first) = compaction::claimed(s, now_ms, lease_ms, reached, lease_id);
    let (after, second) = compaction::claimed(leased, later_ms, later_lease_ms, later_reached, other_id);
    let plan = first->Ok_0->0;
    let keys = sorted_map::sorted_keys::<PartitionKey>(s.partitions.dom());
    first_claimable_is_within(s, keys, now_ms, reached, 0);
    sorted_map::finite_sets_are_listed::<PartitionKey>(s.partitions.dom());
    if second matches Ok(Some(other)) && other.partition == plan.partition {
        let later_keys = sorted_map::sorted_keys::<PartitionKey>(leased.partitions.dom());
        first_claimable_is_claimable(leased, later_keys, later_ms, later_reached, 0);
        assert(compaction::is_free(leased.partitions[plan.partition], later_ms));
    }
}

/// The number of spans that can be compacted is that of spans none of which is open.
proof fn compactable_spans_are_settled(
    transactions: Map<u128, MemoryTransactionView>,
    spans: Seq<StoredSpanView>,
    cutoff_ms: i64,
    i: int,
    k: int,
)
    requires
        0 <= i <= k < i + compaction::compactable(transactions, spans, cutoff_ms, i),
    ensures
        k < spans.len(),
        !log_reads::is_open(transactions, spans[k]),
        spans[k].timestamp_ms <= cutoff_ms,
    decreases k - i,
{
    if i < k {
        compactable_spans_are_settled(transactions, spans, cutoff_ms, i + 1, k);
    }
}

/// A plan for a compaction holds the first spans of a log, and none of an open transaction.
pub proof fn plans_spare_open_transactions(s: LogStateView, p: PartitionKeyView, lease_id: u128, now_ms: i64, k: int)
    requires
        0 <= k < compaction::plan_for(s, p, lease_id, now_ms).spans.len(),
    ensures
        ({
            let plan = compaction::plan_for(s, p, lease_id, now_ms);
            &&& k < s.partitions[p].spans.len()
            &&& plan.spans[k].span == s.partitions[p].spans[k]
            &&& !log_reads::is_open(s.transactions, plan.spans[k].span)
        }),
{
    let cutoff_ms = numbers::clamped_i64(now_ms - log_retention::config_of(s, p.topic).min_compaction_lag_ms) as i64;
    compactable_spans_are_settled(s.transactions, s.partitions[p].spans, cutoff_ms, 0, k);
}

} // verus!
