//! What holds of every log, whatever is written to it, read from it or taken from it.

use crate::error::ControlErrorView;
use crate::log_append;
use crate::log_append::Verdict;
use crate::log_objects;
use crate::log_reads;
use crate::log_types::{
    BatchDraftView, FetchIsolation, LogStateView, MemoryPartitionView, MemoryTransactionView, ObjectRefView,
    ProducerBatch, StoredSpanView, TransactionStatus,
};
use crate::partition::{PartitionKey, PartitionKeyView};
use crate::sorted_map;
use vstd::prelude::*;

verus! {

/// Whether a span holds records of a partition that the log has numbered. A span that was never
/// compacted holds a record for every offset.
pub open spec fn span_fits(p: PartitionKeyView, next_offset: i64, span: StoredSpanView) -> bool {
    &&& span.partition == p
    &&& span.base_offset <= span.last_offset < next_offset
    &&& span.record_count > 0
    &&& span.byte_start <= span.byte_end
    &&& !span.offsets_preserved ==> span.last_offset - span.base_offset + 1 == span.record_count
}

/// Whether the spans of a log follow one another and share no offset.
pub open spec fn spans_follow(spans: Seq<StoredSpanView>) -> bool {
    forall|i: int, j: int| 0 <= i < j < spans.len() ==> (#[trigger] spans[i]).last_offset < (#[trigger] spans[j]).base_offset
}

/// Whether a log is in order.
pub open spec fn log_is_sound(p: PartitionKeyView, log: MemoryPartitionView) -> bool {
    &&& log.log_start_offset <= log.next_offset
    &&& forall|i: int| 0 <= i < log.spans.len() ==> span_fits(p, log.next_offset, #[trigger] log.spans[i])
    &&& spans_follow(log.spans)
}

/// Whether every log is in order.
pub open spec fn logs_are_sound(s: LogStateView) -> bool {
    forall|p: PartitionKeyView| #[trigger] s.partitions.contains_key(p) ==> log_is_sound(p, s.partitions[p])
}

/// Whether the objects of some spans are stored.
pub open spec fn spans_are_held(objects: Map<Seq<char>, ObjectRefView>, spans: Seq<StoredSpanView>) -> bool {
    forall|i: int| 0 <= i < spans.len() ==> objects.contains_key((#[trigger] spans[i]).object_key)
}

/// Whether every object to which a log refers is stored.
pub open spec fn objects_are_held(s: LogStateView) -> bool {
    forall|p: PartitionKeyView| #[trigger] s.partitions.contains_key(p) ==> spans_are_held(s.objects, s.partitions[p].spans)
}

/// Whether a log was only added to: its spans are still there, and new ones start behind the old
/// end.
pub open spec fn only_grew(before: MemoryPartitionView, after: MemoryPartitionView) -> bool {
    &&& before.spans.len() <= after.spans.len()
    &&& forall|i: int| 0 <= i < before.spans.len() ==> (#[trigger] after.spans[i]) == before.spans[i]
    &&& forall|i: int| before.spans.len() <= i < after.spans.len() ==> (#[trigger] after.spans[i]).base_offset >= before.next_offset
    &&& before.next_offset <= after.next_offset
    &&& before.log_start_offset == after.log_start_offset
}

/// Whether a span answers a batch: both are of one partition and one producer, with the same
/// sequence numbers.
pub open spec fn answers(span: StoredSpanView, batch: BatchDraftView) -> bool {
    span.partition == batch.partition && span.producer == batch.producer
}

/// Whether a batch is answered by a span that its log holds.
pub open spec fn is_answered(s: LogStateView, batch: BatchDraftView, span: StoredSpanView) -> bool {
    &&& s.partitions.contains_key(batch.partition)
    &&& s.partitions[batch.partition].spans.contains(span)
    &&& answers(span, batch)
}

/// The recent spans of a producer are spans of the log.
proof fn recent_spans_are_spans(spans: Seq<StoredSpanView>, floor: i64, producer_id: i64, epoch: i16, limit: nat)
    ensures
        forall|i: int|
            0 <= i < log_append::recent(spans, floor, producer_id, epoch, limit).len() ==> spans.contains(
                #[trigger] log_append::recent(spans, floor, producer_id, epoch, limit)[i],
            ),
    decreases spans.len(),
{
    let all = log_append::recent(spans, floor, producer_id, epoch, limit);
    if spans.len() > 0 && limit > 0 {
        let fewer = spans.drop_last();
        let taken = log_append::written_by(spans.last(), floor, producer_id, epoch);
        let left = if taken { (limit - 1) as nat } else { limit };
        recent_spans_are_spans(fewer, floor, producer_id, epoch, left);
        let rest = log_append::recent(fewer, floor, producer_id, epoch, left);
        assert forall|i: int| 0 <= i < all.len() implies spans.contains(#[trigger] all[i]) by {
            if taken && i == 0 {
                assert(spans[spans.len() - 1] == all[0]);
            } else {
                let j = if taken { i - 1 } else { i };
                assert(all[i] == rest[j]);
                assert(fewer.contains(rest[j]));
                let k = choose|k: int| 0 <= k < fewer.len() && fewer[k] == rest[j];
                assert(spans[k] == all[i]);
            }
        }
    }
}

/// A span that is found by its sequence numbers has them.
pub(crate) proof fn found_sequences_are_right(spans: Seq<StoredSpanView>, first: i32, last: i32)
    requires
        log_append::with_sequences(spans, first, last) is Some,
    ensures
        ({
            let found = log_append::with_sequences(spans, first, last)->0;
            spans.contains(found) && found.producer is Some && found.producer->0.first_sequence == first && found.producer->0.last_sequence == last
        }),
    decreases spans.len(),
{
    let found = log_append::with_sequences(spans, first, last)->0;
    if spans[0] == found && spans[0].producer is Some && spans[0].producer->0.first_sequence == first && spans[0].producer->0.last_sequence == last {
        assert(spans.contains(spans[0]));
    } else {
        found_sequences_are_right(spans.drop_first(), first, last);
        let k = choose|k: int| 0 <= k < spans.drop_first().len() && spans.drop_first()[k] == found;
        assert(spans[k + 1] == found);
    }
}

/// A repeated batch is answered by a span of the log that has the producer and the sequence numbers
/// of the batch.
pub proof fn repeats_are_found_in_the_log(s: LogStateView, p: PartitionKeyView, producer: ProducerBatch)
    requires
        log_append::repeated(s, p, producer) is Some,
    ensures
        s.partitions[p].spans.contains(log_append::repeated(s, p, producer)->0),
        (log_append::repeated(s, p, producer)->0).producer == Some(producer),
{
    let spans = s.partitions[p].spans;
    let floor = log_append::sequence_of(s, p, producer)->0.history_start_offset;
    let limit = log_append::PRODUCER_BATCH_HISTORY_LIMIT as nat;
    let latest = log_append::recent(spans, floor, producer.producer_id, producer.producer_epoch, limit);
    recent_spans_are_spans(spans, floor, producer.producer_id, producer.producer_epoch, limit);
    log_objects::recent_is_written(spans, floor, producer.producer_id, producer.producer_epoch, limit);
    found_sequences_are_right(latest, producer.first_sequence, producer.last_sequence);
    let found = log_append::repeated(s, p, producer)->0;
    let k = choose|k: int| 0 <= k < latest.len() && latest[k] == found;
    assert(log_append::written_by(latest[k], floor, producer.producer_id, producer.producer_epoch));
}

/// A batch is stored at the end of its log, one offset to a record, or answered with what the log
/// holds already; every log stays in order, and no other log changes.
pub proof fn batches_extend_their_log(s: LogStateView, object_key: Seq<char>, batch: BatchDraftView)
    requires
        logs_are_sound(s),
        log_append::fits(s, batch),
        log_append::batch_stored(s, object_key, batch) is Ok,
    ensures
        ({
            let (after, span, fresh) = log_append::batch_stored(s, object_key, batch)->Ok_0;
            let p = batch.partition;
            &&& logs_are_sound(after)
            &&& after.partitions.dom() == s.partitions.dom()
            &&& s.partitions.contains_key(p)
            &&& after.partitions[p].spans.contains(span)
            &&& answers(span, batch)
            &&& forall|q: PartitionKeyView| #[trigger] s.partitions.contains_key(q) ==> only_grew(s.partitions[q], after.partitions[q])
            &&& forall|q: PartitionKeyView| #[trigger] s.partitions.contains_key(q) && q != p ==> after.partitions[q] == s.partitions[q]
            &&& after.objects == s.objects
            &&& fresh ==> {
                &&& span == log_append::new_span(batch, object_key, s.partitions[p].next_offset, span.transaction_id)
                &&& span.base_offset == s.partitions[p].next_offset
                &&& after.partitions[p].next_offset == span.last_offset + 1
                &&& after.partitions[p].spans == s.partitions[p].spans.push(span)
            }
            &&& !fresh ==> after == s
        }),
{
    let (after, span, fresh) = log_append::batch_stored(s, object_key, batch)->Ok_0;
    let p = batch.partition;
    assert(s.partitions.contains_key(p));
    assert(log_is_sound(p, s.partitions[p]));
    if fresh {
        let before = s.partitions[p];
        let log = after.partitions[p];
        assert(log.spans == before.spans.push(span));
        assert(log.spans[before.spans.len() as int] == span);
        assert(span_fits(p, log.next_offset, span));
        assert forall|i: int| 0 <= i < log.spans.len() implies span_fits(p, log.next_offset, #[trigger] log.spans[i]) by {
            if i < before.spans.len() {
                assert(log.spans[i] == before.spans[i]);
                assert(span_fits(p, before.next_offset, before.spans[i]));
            }
        }
        assert forall|i: int, j: int| 0 <= i < j < log.spans.len()
            implies (#[trigger] log.spans[i]).last_offset < (#[trigger] log.spans[j]).base_offset by {
            assert(log.spans[i] == before.spans[i]);
            assert(span_fits(p, before.next_offset, before.spans[i]));
            if j < before.spans.len() {
                assert(log.spans[j] == before.spans[j]);
            }
        }
        assert(log_is_sound(p, log));
        assert forall|q: PartitionKeyView| #[trigger] after.partitions.contains_key(q) implies log_is_sound(q, after.partitions[q]) by {
            if q != p {
                assert(s.partitions.contains_key(q));
            }
        }
        assert(after.partitions.dom() =~= s.partitions.dom());
    } else {
        let producer = batch.producer->0;
        repeats_are_found_in_the_log(s, p, producer);
        let i = choose|i: int| 0 <= i < s.partitions[p].spans.len() && s.partitions[p].spans[i] == span;
        assert(span_fits(p, s.partitions[p].next_offset, s.partitions[p].spans[i]));
    }
}

/// What holds once the first `n` batches of an object are stored.
pub(crate) proof fn first_batches_extend_their_logs(s: LogStateView, object_key: Seq<char>, batches: Seq<BatchDraftView>, n: nat)
    requires
        logs_are_sound(s),
        log_append::has_room(s, batches, 0),
        sorted_map::lists_in_order::<(PartitionKey, usize)>(log_append::storage_order(batches), log_append::places(batches)),
        log_append::storage_order(batches).len() == batches.len(),
        n <= batches.len(),
        log_append::batches_stored(s, object_key, batches, n) is Ok,
    ensures
        ({
            let stored = log_append::batches_stored(s, object_key, batches, n)->Ok_0;
            &&& logs_are_sound(stored.state)
            &&& log_append::has_room(stored.state, batches, n)
            &&& stored.state.partitions.dom() == s.partitions.dom()
            &&& stored.state.objects == s.objects
            &&& forall|q: PartitionKeyView| #[trigger] s.partitions.contains_key(q) ==> only_grew(s.partitions[q], stored.state.partitions[q])
            &&& forall|q: PartitionKeyView, i: int|
                #![trigger stored.state.partitions[q].spans[i]]
                s.partitions.contains_key(q) && s.partitions[q].spans.len() <= i < stored.state.partitions[q].spans.len()
                    ==> stored.state.partitions[q].spans[i].object_key == object_key && stored.object_used
            &&& forall|k: int| 0 <= k < n ==> stored.spans.contains_key((#[trigger] log_append::storage_order(batches)[k]).1)
            &&& forall|place: usize| #[trigger]
                stored.spans.contains_key(place) ==> place < batches.len() && is_answered(stored.state, batches[place as int], stored.spans[place])
        }),
    decreases n,
{
    if n > 0 {
        let m = (n - 1) as nat;
        let order = log_append::storage_order(batches);
        let place = order[n - 1].1;
        assert(order.to_set().contains(order[n - 1]));
        assert(log_append::places(batches).contains(order[n - 1]));
        first_batches_extend_their_logs(s, object_key, batches, m);
        let before = log_append::batches_stored(s, object_key, batches, m)->Ok_0;
        let stored = log_append::batches_stored(s, object_key, batches, n)->Ok_0;
        let batch = batches[place as int];
        log_append::first_batch_fits(before.state, batches, m);
        batches_extend_their_log(before.state, object_key, batch);
        log_append::room_after_batch(before.state, object_key, batches, m);
        let (after, span, fresh) = log_append::batch_stored(before.state, object_key, batch)->Ok_0;
        assert(stored.state == after);
        assert forall|q: PartitionKeyView| #[trigger] s.partitions.contains_key(q) implies only_grew(s.partitions[q], after.partitions[q]) by {
            let first = s.partitions[q];
            let middle = before.state.partitions[q];
            let last = after.partitions[q];
            assert(before.state.partitions.contains_key(q));
            assert forall|i: int| 0 <= i < first.spans.len() implies (#[trigger] last.spans[i]) == first.spans[i] by {
                assert(middle.spans[i] == first.spans[i]);
            }
            assert forall|i: int| first.spans.len() <= i < last.spans.len() implies (#[trigger] last.spans[i]).base_offset >= first.next_offset by {
                if i < middle.spans.len() {
                    assert(last.spans[i] == middle.spans[i]);
                }
            }
        }
        assert forall|q: PartitionKeyView, i: int|
            #![trigger stored.state.partitions[q].spans[i]]
            s.partitions.contains_key(q) && s.partitions[q].spans.len() <= i < stored.state.partitions[q].spans.len()
                implies stored.state.partitions[q].spans[i].object_key
            == object_key && stored.object_used by {
            assert(before.state.partitions.contains_key(q));
            if i < before.state.partitions[q].spans.len() {
                assert(stored.state.partitions[q].spans[i] == before.state.partitions[q].spans[i]);
            } else {
                assert(q == batch.partition && fresh);
            }
        }
        assert forall|k: int| 0 <= k < n implies stored.spans.contains_key((#[trigger] order[k]).1) by {}
        assert forall|other: usize| #[trigger] stored.spans.contains_key(other) implies other < batches.len() && is_answered(
            stored.state,
            batches[other as int],
            stored.spans[other],
        ) by {
            if other != place {
                assert(before.spans.contains_key(other));
                let q = batches[other as int].partition;
                assert(before.state.partitions.contains_key(q));
                let i = choose|i: int| 0 <= i < before.state.partitions[q].spans.len() && before.state.partitions[q].spans[i] == before.spans[other];
                assert(only_grew(before.state.partitions[q], after.partitions[q]));
                assert(after.partitions[q].spans[i] == before.spans[other]);
            }
        }
    }
}

/// What an accepted object does: every log stays in order and keeps what it held, every object that
/// a log refers to is stored, and each batch is answered by a span of its log.
pub proof fn commits_keep_logs_sound(s: LogStateView, object: ObjectRefView, batches: Seq<BatchDraftView>)
    requires
        logs_are_sound(s),
        objects_are_held(s),
        batches.len() <= usize::MAX,
        log_append::has_room(s, batches, 0),
    ensures
        ({
            let (after, answer) = log_objects::committed(s, object, batches);
            &&& logs_are_sound(after)
            &&& objects_are_held(after)
            &&& after.partitions.dom() == s.partitions.dom()
            &&& forall|q: PartitionKeyView| #[trigger] s.partitions.contains_key(q) ==> only_grew(s.partitions[q], after.partitions[q])
            &&& answer is Ok ==> answer->Ok_0.len() == batches.len()
            &&& answer is Ok ==> forall|i: int| 0 <= i < batches.len() ==> is_answered(after, batches[i], #[trigger] answer->Ok_0[i])
        }),
{
    let (after, answer) = log_objects::committed(s, object, batches);
    if answer is Ok {
        let order = log_append::storage_order(batches);
        places_are_listed(batches);
        log_append::every_batch_has_a_place(batches);
        first_batches_extend_their_logs(s, object.key, batches, batches.len());
        let stored = log_append::batches_stored(s, object.key, batches, batches.len())->Ok_0;
        assert(after.partitions == stored.state.partitions);
        assert forall|q: PartitionKeyView| #[trigger] after.partitions.contains_key(q) implies log_is_sound(q, after.partitions[q]) by {
            assert(stored.state.partitions.contains_key(q));
        }
        assert(s.objects.submap_of(after.objects)) by {
            assert forall|key: Seq<char>| #[trigger] s.objects.contains_key(key) implies after.objects.contains_key(key)
                && after.objects[key] == s.objects[key] by {}
        }
        assert forall|q: PartitionKeyView| #[trigger] after.partitions.contains_key(q)
            implies spans_are_held(after.objects, after.partitions[q].spans) by {
            assert(s.partitions.contains_key(q));
            let spans = after.partitions[q].spans;
            assert forall|i: int| 0 <= i < spans.len() implies after.objects.contains_key((#[trigger] spans[i]).object_key) by {
                if i < s.partitions[q].spans.len() {
                    assert(only_grew(s.partitions[q], stored.state.partitions[q]));
                    assert(spans[i] == s.partitions[q].spans[i]);
                    assert(spans_are_held(s.objects, s.partitions[q].spans));
                    assert(s.objects.contains_key(s.partitions[q].spans[i].object_key));
                } else {
                    assert(stored.state.partitions[q].spans[i].object_key == object.key);
                }
            }
        }
        let spans = answer->Ok_0;
        assert forall|i: int| 0 <= i < batches.len() implies is_answered(after, batches[i], #[trigger] spans[i]) by {
            let place = (batches[i].partition, i as usize);
            assert(log_append::places(batches).contains(place));
            assert(order.to_set().contains(place));
            let k = choose|k: int| 0 <= k < order.len() && order[k] == place;
            assert(stored.spans.contains_key(order[k].1));
            assert(spans[i] == stored.spans[i as usize]);
        }
    }
}

/// The places of batches can be listed.
pub(crate) proof fn places_are_listed(batches: Seq<BatchDraftView>)
    requires
        batches.len() <= usize::MAX,
    ensures
        sorted_map::lists_in_order::<(PartitionKey, usize)>(log_append::storage_order(batches), log_append::places(batches)),
{
    let listed = Seq::new(batches.len(), |i: int| (batches[i].partition, i as usize));
    assert forall|place: (PartitionKeyView, usize)| listed.to_set().contains(place) == log_append::places(batches).contains(place) by {
        if log_append::places(batches).contains(place) {
            assert(listed[place.1 as int] == place);
        }
    }
    assert(listed.to_set() =~= log_append::places(batches));
    vstd::seq_lib::seq_to_set_is_finite(listed);
    sorted_map::finite_sets_are_listed::<(PartitionKey, usize)>(log_append::places(batches));
}

/// A refused object changes nothing.
pub proof fn refused_commits_change_nothing(s: LogStateView, object: ObjectRefView, batches: Seq<BatchDraftView>)
    ensures
        log_objects::committed(s, object, batches).1 is Err ==> log_objects::committed(s, object, batches).0 == s,
{
}

/// A recent span that starts at `base` makes the oldest of the recent spans start no later.
pub(crate) proof fn oldest_is_no_later(spans: Seq<StoredSpanView>, i: int)
    requires
        0 <= i < spans.len(),
    ensures
        log_append::oldest(spans) is Some,
        log_append::oldest(spans)->0 <= spans[i].base_offset,
    decreases spans.len(),
{
    if i < spans.len() - 1 {
        oldest_is_no_later(spans.drop_last(), i);
        assert(spans.drop_last()[i] == spans[i]);
    }
}

/// Nothing is recent where every span starts before the floor.
pub(crate) proof fn nothing_is_recent(spans: Seq<StoredSpanView>, floor: i64, producer_id: i64, epoch: i16, limit: nat)
    requires
        forall|i: int| 0 <= i < spans.len() ==> (#[trigger] spans[i]).base_offset < floor,
    ensures
        log_append::recent(spans, floor, producer_id, epoch, limit).len() == 0,
    decreases spans.len(),
{
    if spans.len() > 0 && limit > 0 {
        assert(spans[spans.len() - 1].base_offset < floor);
        assert forall|i: int| 0 <= i < spans.drop_last().len() implies (#[trigger] spans.drop_last()[i]).base_offset < floor by {
            assert(spans[i].base_offset < floor);
        }
        nothing_is_recent(spans.drop_last(), floor, producer_id, epoch, limit);
    }
}

/// A producer that at once sends a batch once more is answered as it was the first time, and the
/// batch is not stored again, whatever object brings it.
pub proof fn immediate_repeats_are_answered_alike(s: LogStateView, object_key: Seq<char>, batch: BatchDraftView, other_key: Seq<char>)
    requires
        logs_are_sound(s),
        log_append::fits(s, batch),
        batch.producer is Some,
        log_append::batch_stored(s, object_key, batch) is Ok,
    ensures
        ({
            let (after, span, fresh) = log_append::batch_stored(s, object_key, batch)->Ok_0;
            log_append::batch_stored(after, other_key, batch) == Ok::<(LogStateView, StoredSpanView, bool), ControlErrorView>((after, span, false))
        }),
{
    let (after, span, fresh) = log_append::batch_stored(s, object_key, batch)->Ok_0;
    let p = batch.partition;
    let producer = batch.producer->0;
    if fresh {
        let before = s.partitions[p];
        assert(log_is_sound(p, before));
        let spans = after.partitions[p].spans;
        let limit = log_append::PRODUCER_BATCH_HISTORY_LIMIT as nat;
        let id = producer.producer_id;
        let epoch = producer.producer_epoch;
        assert(spans.last() == span);
        assert(spans.drop_last() =~= before.spans);
        let sequence = after.producers[id].sequences[p];
        if log_append::sequence_of(s, p, producer) is Some {
            let floor = log_append::sequence_of(s, p, producer)->0.history_start_offset;
            let latest = log_append::recent(spans, floor, id, epoch, limit);
            if span.base_offset >= floor {
                assert(log_append::written_by(span, floor, id, epoch));
                assert(latest[0] == span);
                oldest_is_no_later(latest, 0);
            } else {
                assert forall|i: int| 0 <= i < spans.len() implies (#[trigger] spans[i]).base_offset < floor by {
                    if i < before.spans.len() {
                        assert(spans[i] == before.spans[i]);
                        assert(span_fits(p, before.next_offset, before.spans[i]));
                    }
                }
                nothing_is_recent(spans, floor, id, epoch, limit);
            }
        }
        assert(sequence.history_start_offset <= span.base_offset);
        let latest = log_append::recent(spans, sequence.history_start_offset, id, epoch, limit);
        assert(log_append::written_by(span, sequence.history_start_offset, id, epoch));
        assert(latest[0] == span);
        assert(log_append::with_sequences(latest, producer.first_sequence, producer.last_sequence) == Some(span));
        assert(log_append::batch_transaction(after, batch) == log_append::batch_transaction(s, batch));
        assert(log_append::judged(after, batch) == Ok::<Verdict, ControlErrorView>(Verdict::Repeated(span)));
    }
}

/// Where the first span stands that reaches an offset.
proof fn fetches_pass_over_what_ends_before(
    transactions: Map<u128, MemoryTransactionView>,
    spans: Seq<StoredSpanView>,
    i: int,
    k: int,
    offset: i64,
    max_bytes: int,
    committed_before: Option<i64>,
)
    requires
        0 <= i <= k < spans.len(),
        forall|j: int| i <= j < k ==> (#[trigger] spans[j]).last_offset < offset,
    ensures
        log_reads::fetched(transactions, spans, i, Seq::empty(), offset, max_bytes, committed_before) == log_reads::fetched(
            transactions,
            spans,
            k,
            Seq::empty(),
            offset,
            max_bytes,
            committed_before,
        ),
    decreases k - i,
{
    if i < k {
        assert(spans[i].last_offset < offset);
        fetches_pass_over_what_ends_before(transactions, spans, i + 1, k, offset, max_bytes, committed_before);
    }
}

/// What a fetch has taken stays at the front of what it gives.
proof fn fetches_keep_what_they_took(
    transactions: Map<u128, MemoryTransactionView>,
    spans: Seq<StoredSpanView>,
    i: int,
    taken: Seq<StoredSpanView>,
    offset: i64,
    max_bytes: int,
    committed_before: Option<i64>,
)
    ensures
        ({
            let got = log_reads::fetched(transactions, spans, i, taken, offset, max_bytes, committed_before);
            got.len() >= taken.len() && got.take(taken.len() as int) == taken
        }),
    decreases spans.len() - i,
{
    let got = log_reads::fetched(transactions, spans, i, taken, offset, max_bytes, committed_before);
    if i < 0 || i >= spans.len() {
        assert(got.take(taken.len() as int) =~= taken);
    } else if spans[i].last_offset < offset {
        fetches_keep_what_they_took(transactions, spans, i + 1, taken, offset, max_bytes, committed_before);
    } else if committed_before is Some && spans[i].base_offset >= committed_before->0 {
        assert(got.take(taken.len() as int) =~= taken);
    } else if committed_before is Some && !log_reads::is_visible(transactions, spans[i]) {
        fetches_keep_what_they_took(transactions, spans, i + 1, taken, offset, max_bytes, committed_before);
    } else if taken.len() > 0 && log_reads::bytes_of(taken) + log_reads::span_size(spans[i]) > max_bytes {
        assert(got.take(taken.len() as int) =~= taken);
    } else {
        let more = taken.push(spans[i]);
        fetches_keep_what_they_took(transactions, spans, i + 1, more, offset, max_bytes, committed_before);
        assert(got.take(taken.len() as int) =~= got.take(more.len() as int).take(taken.len() as int));
        assert(more.take(taken.len() as int) =~= taken);
    }
}

/// A fetch at any offset that a span holds and that the log has not given up gives that span first,
/// however large it is. Readers of committed records are given it where it lies before the open
/// transactions and its own transaction, if any, was committed.
pub proof fn spans_are_read_back(s: LogStateView, p: PartitionKeyView, k: int, offset: i64, max_bytes: int, isolation: FetchIsolation)
    requires
        logs_are_sound(s),
        s.partitions.contains_key(p),
        0 <= k < s.partitions[p].spans.len(),
        s.partitions[p].spans[k].base_offset <= offset <= s.partitions[p].spans[k].last_offset,
        s.partitions[p].log_start_offset <= offset,
        isolation == FetchIsolation::ReadCommitted ==> log_reads::is_visible(s.transactions, s.partitions[p].spans[k])
            && s.partitions[p].spans[k].base_offset < log_reads::watermarks(s.transactions, s.partitions[p]).last_stable_offset,
    ensures
        ({
            let answer = log_reads::fetch_outcome(s, p, offset, max_bytes, isolation);
            answer is Ok && answer->Ok_0.spans.len() > 0 && answer->Ok_0.spans[0] == s.partitions[p].spans[k]
        }),
{
    let log = s.partitions[p];
    let spans = log.spans;
    assert(log_is_sound(p, log));
    assert(span_fits(p, log.next_offset, spans[k]));
    let before = match isolation {
        FetchIsolation::ReadCommitted => Some(log_reads::watermarks(s.transactions, log).last_stable_offset),
        FetchIsolation::ReadUncommitted => None,
    };
    assert forall|j: int| 0 <= j < k implies (#[trigger] spans[j]).last_offset < offset by {
        assert(spans[j].last_offset < spans[k].base_offset);
    }
    fetches_pass_over_what_ends_before(s.transactions, spans, 0, k, offset, max_bytes, before);
    let first = Seq::<StoredSpanView>::empty().push(spans[k]);
    fetches_keep_what_they_took(s.transactions, spans, k + 1, first, offset, max_bytes, before);
    let got = log_reads::fetched(s.transactions, spans, k + 1, first, offset, max_bytes, before);
    assert(got.take(1)[0] == first[0]);
    assert(log_reads::fetch_outcome(s, p, offset, max_bytes, isolation)->Ok_0.spans == got);
}

/// What is committed is read back: a fetch at the offset that a new batch was given finds it.
pub proof fn commits_are_read_back(s: LogStateView, object: ObjectRefView, batches: Seq<BatchDraftView>, i: int, max_bytes: int)
    requires
        logs_are_sound(s),
        objects_are_held(s),
        batches.len() <= usize::MAX,
        log_append::has_room(s, batches, 0),
        log_objects::committed(s, object, batches).1 is Ok,
        0 <= i < batches.len(),
        log_objects::committed(s, object, batches).1->Ok_0[i].base_offset >= s.partitions[batches[i].partition].log_start_offset,
    ensures
        ({
            let (after, answer) = log_objects::committed(s, object, batches);
            let span = answer->Ok_0[i];
            let found = log_reads::fetch_outcome(after, batches[i].partition, span.base_offset, max_bytes, FetchIsolation::ReadUncommitted);
            found is Ok && found->Ok_0.spans.len() > 0 && found->Ok_0.spans[0] == span
        }),
{
    commits_keep_logs_sound(s, object, batches);
    let (after, answer) = log_objects::committed(s, object, batches);
    let spans = answer->Ok_0;
    let p = batches[i].partition;
    assert(is_answered(after, batches[i], spans[i]));
    let log = after.partitions[p];
    assert(log_is_sound(p, log));
    let k = choose|k: int| 0 <= k < log.spans.len() && log.spans[k] == spans[i];
    assert(span_fits(p, log.next_offset, log.spans[k]));
    assert(s.partitions.contains_key(p));
    assert(only_grew(s.partitions[p], log));
    spans_are_read_back(after, p, k, spans[i].base_offset, max_bytes, FetchIsolation::ReadUncommitted);
}

/// The first offset of open transactions is one that such a transaction wrote, and every other open
/// span starts no earlier.
pub proof fn first_open_is_the_smallest(transactions: Map<u128, MemoryTransactionView>, spans: Seq<StoredSpanView>)
    ensures
        match log_reads::first_open(transactions, spans) {
            Some(least) => {
                &&& exists|i: int| 0 <= i < spans.len() && log_reads::is_open(transactions, #[trigger] spans[i]) && spans[i].base_offset == least
                &&& forall|i: int| 0 <= i < spans.len() && log_reads::is_open(transactions, #[trigger] spans[i]) ==> least <= spans[i].base_offset
            },
            None => forall|i: int| 0 <= i < spans.len() ==> !log_reads::is_open(transactions, #[trigger] spans[i]),
        },
    decreases spans.len(),
{
    if spans.len() > 0 {
        let fewer = spans.drop_last();
        first_open_is_the_smallest(transactions, fewer);
        let last = spans.len() - 1;
        assert forall|i: int| 0 <= i < spans.len() && log_reads::is_open(transactions, #[trigger] spans[i]) implies {
            &&& log_reads::first_open(transactions, spans) is Some
            &&& log_reads::first_open(transactions, spans)->0 <= spans[i].base_offset
        } by {
            if i < last {
                assert(fewer[i] == spans[i]);
            }
        }
        if log_reads::first_open(transactions, spans) is Some {
            let least = log_reads::first_open(transactions, spans)->0;
            if log_reads::is_open(transactions, spans[last]) && spans[last].base_offset == least {
            } else {
                let i = choose|i: int| 0 <= i < fewer.len() && log_reads::is_open(transactions, #[trigger] fewer[i]) && fewer[i].base_offset == least;
                assert(spans[i] == fewer[i]);
            }
        }
    }
}

/// What readers of committed records may see ends no later than the log, and a log starts no later
/// than it ends.
pub proof fn marks_are_in_order(s: LogStateView, p: PartitionKeyView)
    requires
        logs_are_sound(s),
        s.partitions.contains_key(p),
    ensures
        ({
            let marks = log_reads::watermarks(s.transactions, s.partitions[p]);
            marks.last_stable_offset <= marks.high_watermark && marks.log_start_offset <= marks.high_watermark
        }),
{
    let log = s.partitions[p];
    assert(log_is_sound(p, log));
    first_open_is_the_smallest(s.transactions, log.spans);
    if log_reads::first_open(s.transactions, log.spans) is Some {
        let least = log_reads::first_open(s.transactions, log.spans)->0;
        let i = choose|i: int| 0 <= i < log.spans.len() && log_reads::is_open(s.transactions, #[trigger] log.spans[i])
            && log.spans[i].base_offset == least;
        assert(span_fits(p, log.next_offset, log.spans[i]));
    }
}

/// What a fetch may give, when `from` is the place up to which it has looked.
pub open spec fn is_proper_fetch(
    transactions: Map<u128, MemoryTransactionView>,
    spans: Seq<StoredSpanView>,
    from: int,
    got: Seq<StoredSpanView>,
    offset: i64,
    max_bytes: int,
    committed_before: Option<i64>,
) -> bool {
    &&& forall|i: int|
        0 <= i < got.len() ==> {
            &&& spans.take(from).contains(#[trigger] got[i])
            &&& got[i].last_offset >= offset
            &&& committed_before is Some ==> got[i].base_offset < committed_before->0 && log_reads::is_visible(transactions, got[i])
        }
    &&& spans_follow(got)
    &&& got.len() > 1 ==> log_reads::bytes_of(got) <= max_bytes
}

/// A fetch gives what it may give.
proof fn fetches_are_proper(
    transactions: Map<u128, MemoryTransactionView>,
    spans: Seq<StoredSpanView>,
    i: int,
    taken: Seq<StoredSpanView>,
    offset: i64,
    max_bytes: int,
    committed_before: Option<i64>,
)
    requires
        0 <= i <= spans.len(),
        spans_follow(spans),
        is_proper_fetch(transactions, spans, i, taken, offset, max_bytes, committed_before),
    ensures
        is_proper_fetch(
            transactions,
            spans,
            spans.len() as int,
            log_reads::fetched(transactions, spans, i, taken, offset, max_bytes, committed_before),
            offset,
            max_bytes,
            committed_before,
        ),
    decreases spans.len() - i,
{
    if i < spans.len() {
        assert forall|span: StoredSpanView| #[trigger] spans.take(i).contains(span) implies spans.take(i + 1).contains(span)
            && spans.take(spans.len() as int).contains(
            span,
        ) by {
            let k = choose|k: int| 0 <= k < i && spans.take(i)[k] == span;
            assert(spans.take(i + 1)[k] == span);
            assert(spans.take(spans.len() as int)[k] == span);
        }
        if spans[i].last_offset < offset {
            fetches_are_proper(transactions, spans, i + 1, taken, offset, max_bytes, committed_before);
        } else if committed_before is Some && spans[i].base_offset >= committed_before->0 {
        } else if committed_before is Some && !log_reads::is_visible(transactions, spans[i]) {
            fetches_are_proper(transactions, spans, i + 1, taken, offset, max_bytes, committed_before);
        } else if taken.len() > 0 && log_reads::bytes_of(taken) + log_reads::span_size(spans[i]) > max_bytes {
        } else {
            let more = taken.push(spans[i]);
            assert(more.drop_last() =~= taken);
            assert(spans.take(i + 1)[i] == spans[i]);
            assert forall|j: int| 0 <= j < more.len() implies {
                &&& spans.take(i + 1).contains(#[trigger] more[j])
                &&& more[j].last_offset >= offset
                &&& committed_before is Some ==> more[j].base_offset < committed_before->0 && log_reads::is_visible(transactions, more[j])
            } by {
                if j < taken.len() {
                    assert(more[j] == taken[j]);
                    assert(spans.take(i).contains(taken[j]));
                }
            }
            assert forall|j: int, k: int| 0 <= j < k < more.len() implies (#[trigger] more[j]).last_offset < (#[trigger] more[k]).base_offset by {
                assert(more[j] == taken[j]);
                if k < taken.len() {
                    assert(more[k] == taken[k]);
                } else {
                    assert(spans.take(i).contains(taken[j]));
                    let at = choose|at: int| 0 <= at < i && spans.take(i)[at] == taken[j];
                    assert(spans[at].last_offset < spans[i].base_offset);
                }
            }
            fetches_are_proper(transactions, spans, i + 1, more, offset, max_bytes, committed_before);
        }
    }
}

/// A fetch gives spans of the log, in order, none of which ends before the offset asked for, and no
/// more bytes than asked for unless the first span alone has more. A reader of committed records is
/// shown no record of an open or aborted transaction, and nothing that an open transaction precedes.
pub proof fn fetches_show_what_they_may(s: LogStateView, p: PartitionKeyView, offset: i64, max_bytes: int, isolation: FetchIsolation)
    requires
        logs_are_sound(s),
        log_reads::fetch_outcome(s, p, offset, max_bytes, isolation) is Ok,
    ensures
        ({
            let got = log_reads::fetch_outcome(s, p, offset, max_bytes, isolation)->Ok_0;
            &&& forall|i: int| 0 <= i < got.spans.len() ==> s.partitions[p].spans.contains(#[trigger] got.spans[i])
                && got.spans[i].last_offset >= offset
            &&& spans_follow(got.spans)
            &&& got.spans.len() > 1 ==> log_reads::bytes_of(got.spans) <= max_bytes
            &&& isolation == FetchIsolation::ReadCommitted ==> forall|i: int|
                0 <= i < got.spans.len() ==> {
                    &&& (#[trigger] got.spans[i]).base_offset < got.last_stable_offset
                    &&& got.spans[i].transaction_id is Some ==> s.transactions.contains_key(got.spans[i].transaction_id->0)
                        && s.transactions[got.spans[i].transaction_id->0].status == TransactionStatus::Committed
                }
        }),
{
    let log = s.partitions[p];
    assert(log_is_sound(p, log));
    let before = match isolation {
        FetchIsolation::ReadCommitted => Some(log_reads::watermarks(s.transactions, log).last_stable_offset),
        FetchIsolation::ReadUncommitted => None,
    };
    fetches_are_proper(s.transactions, log.spans, 0, Seq::empty(), offset, max_bytes, before);
    assert(log.spans.take(log.spans.len() as int) =~= log.spans);
}

/// Whether no announced object is stored.
pub open spec fn announced_are_not_stored(s: LogStateView) -> bool {
    forall|key: Seq<char>| #[trigger] s.staged_objects.contains_key(key) ==> !s.objects.contains_key(key)
}

/// Announced objects are left to themselves but for those that hold some spans.
proof fn unstaged_hold_nothing(staged: Map<Seq<char>, i64>, spans: Seq<StoredSpanView>)
    ensures
        forall|key: Seq<char>| #[trigger]
            log_objects::unstaged(staged, spans).contains_key(key) <==> staged.contains_key(key) && !log_objects::log_refers_to(spans, key),
    decreases spans.len(),
{
    if spans.len() > 0 {
        let fewer = spans.drop_last();
        unstaged_hold_nothing(staged, fewer);
        assert forall|key: Seq<char>| #[trigger] log_objects::unstaged(staged, spans).contains_key(key) <==> staged.contains_key(key)
            && !log_objects::log_refers_to(spans, key) by {
            let last = spans.len() - 1;
            assert(log_objects::unstaged(staged, spans).contains_key(key) <==> log_objects::unstaged(staged, fewer).contains_key(key) && key
                != spans[last].object_key);
            if log_objects::log_refers_to(spans, key) {
                let i = choose|i: int| 0 <= i < spans.len() && (#[trigger] spans[i]).object_key == key;
                if i < last {
                    assert(fewer[i] == spans[i]);
                }
            }
            if log_objects::log_refers_to(fewer, key) {
                let i = choose|i: int| 0 <= i < fewer.len() && (#[trigger] fewer[i]).object_key == key;
                assert(spans[i] == fewer[i]);
            }
        }
    }
}

/// An object that holds a new batch answers one.
proof fn used_objects_answer_a_batch(s: LogStateView, object_key: Seq<char>, batches: Seq<BatchDraftView>, n: nat)
    requires
        sorted_map::lists_in_order::<(PartitionKey, usize)>(log_append::storage_order(batches), log_append::places(batches)),
        n <= log_append::storage_order(batches).len(),
        log_append::batches_stored(s, object_key, batches, n) is Ok,
        log_append::batches_stored(s, object_key, batches, n)->Ok_0.object_used,
    ensures
        ({
            let stored = log_append::batches_stored(s, object_key, batches, n)->Ok_0;
            exists|k: int| 0 <= k < n && stored.spans[(#[trigger] log_append::storage_order(batches)[k]).1].object_key == object_key
        }),
    decreases n,
{
    if n > 0 {
        let m = (n - 1) as nat;
        let order = log_append::storage_order(batches);
        let before = log_append::batches_stored(s, object_key, batches, m)->Ok_0;
        let stored = log_append::batches_stored(s, object_key, batches, n)->Ok_0;
        let place = order[n - 1].1;
        if before.object_used {
            used_objects_answer_a_batch(s, object_key, batches, m);
            let k = choose|k: int| 0 <= k < m && before.spans[(#[trigger] order[k]).1].object_key == object_key;
            sorted_map::strictly_sorted_unique::<(PartitionKey, usize)>(order);
            assert(order.to_set().contains(order[k]) && order.to_set().contains(order[n - 1]));
            assert(log_append::places(batches).contains(order[k]) && log_append::places(batches).contains(order[n - 1]));
            assert(order[k] != order[n - 1]);
            assert(order[k].1 != place);
            assert(stored.spans[order[k].1].object_key == object_key);
        } else {
            assert(stored.spans[order[n - 1].1].object_key == object_key);
        }
    }
}

/// An announced object is never stored at the same time: announcing, committing and deleting objects
/// keep it so.
pub proof fn announced_objects_stay_unstored(s: LogStateView, object: ObjectRefView, batches: Seq<BatchDraftView>, now_ms: i64)
    requires
        announced_are_not_stored(s),
        logs_are_sound(s),
        batches.len() <= usize::MAX,
        log_append::has_room(s, batches, 0),
    ensures
        announced_are_not_stored(log_objects::staged(s, object.key, now_ms).0),
        announced_are_not_stored(log_objects::committed(s, object, batches).0),
        announced_are_not_stored(log_objects::deleted(s, object.key).0),
{
    let (after, answer) = log_objects::committed(s, object, batches);
    if answer is Ok {
        places_are_listed(batches);
        log_append::every_batch_has_a_place(batches);
        first_batches_extend_their_logs(s, object.key, batches, batches.len());
        let stored = log_append::batches_stored(s, object.key, batches, batches.len())->Ok_0;
        let order = log_append::storage_order(batches);
        let spans = answer->Ok_0;
        batches_leave_announcements_alone(s, object.key, batches, batches.len());
        unstaged_hold_nothing(s.staged_objects, spans);
        assert forall|key: Seq<char>| #[trigger] after.staged_objects.contains_key(key) implies !after.objects.contains_key(key) by {
            assert(s.staged_objects.contains_key(key));
            if key == object.key && stored.object_used {
                used_objects_answer_a_batch(s, object.key, batches, batches.len());
                let k = choose|k: int| 0 <= k < batches.len() && stored.spans[(#[trigger] order[k]).1].object_key == object.key;
                assert(order.to_set().contains(order[k]));
                assert(log_append::places(batches).contains(order[k]));
                assert(spans[order[k].1 as int].object_key == object.key);
                assert(log_objects::log_refers_to(spans, object.key));
            }
        }
    }
}

/// Storing batches leaves announcements and claims as they are.
proof fn batches_leave_announcements_alone(s: LogStateView, object_key: Seq<char>, batches: Seq<BatchDraftView>, n: nat)
    requires
        log_append::batches_stored(s, object_key, batches, n) is Ok,
    ensures
        log_append::batches_stored(s, object_key, batches, n)->Ok_0.state.staged_objects == s.staged_objects,
        log_append::batches_stored(s, object_key, batches, n)->Ok_0.state.orphan_gc_claims == s.orphan_gc_claims,
    decreases n,
{
    if n > 0 {
        batches_leave_announcements_alone(s, object_key, batches, (n - 1) as nat);
    }
}

/// An object is either claimed for deletion or committed, never both: only announced objects are
/// claimed, none of which is stored, and an object that is claimed cannot be committed.
pub proof fn claimed_objects_are_not_committed(
    s: LogStateView,
    before_ms: i64,
    limit: i64,
    now_ms: i64,
    i: int,
    object: ObjectRefView,
    batches: Seq<BatchDraftView>,
)
    requires
        announced_are_not_stored(s),
        s.staged_objects.dom().finite(),
        0 <= i < log_objects::claimable(s, before_ms, limit).len(),
        object.key == log_objects::claimable(s, before_ms, limit)[i],
    ensures
        !s.objects.contains_key(object.key),
        ({
            let claims = log_objects::claimed(s.orphan_gc_claims, log_objects::claimable(s, before_ms, limit), now_ms);
            let after = LogStateView { orphan_gc_claims: claims, ..s };
            log_objects::committed(after, object, batches).0 == after && log_objects::committed(after, object, batches).1 is Err
        }),
{
    let stale = log_objects::stale(s, before_ms);
    let entry_of = |key: Seq<char>| (log_objects::touched_at(s, key), key);
    s.staged_objects.dom().lemma_map_finite(entry_of);
    assert(stale.subset_of(s.staged_objects.dom().map(entry_of))) by {
        assert forall|entry: (i64, Seq<char>)| stale.contains(entry) implies s.staged_objects.dom().map(entry_of).contains(entry) by {
            assert(s.staged_objects.dom().contains(entry.1));
            assert(entry_of(entry.1) == entry);
        }
    }
    vstd::set_lib::lemma_set_subset_finite(s.staged_objects.dom().map(entry_of), stale);
    sorted_map::finite_sets_are_listed::<(i64, String)>(stale);
    let order = sorted_map::sorted_keys::<(i64, String)>(stale);
    let keys = log_objects::claimable(s, before_ms, limit);
    assert(keys[i] == order[i].1);
    assert(order.to_set().contains(order[i]));
    assert(stale.contains(order[i]));
    listed_objects_are_claimed(s.orphan_gc_claims, keys, now_ms, i);
}

/// Every object of a list is claimed.
proof fn listed_objects_are_claimed(claims: Map<Seq<char>, i64>, keys: Seq<Seq<char>>, now_ms: i64, i: int)
    requires
        0 <= i < keys.len(),
    ensures
        log_objects::claimed(claims, keys, now_ms).contains_key(keys[i]),
    decreases keys.len(),
{
    if i < keys.len() - 1 {
        listed_objects_are_claimed(claims, keys.drop_last(), now_ms, i);
        assert(keys.drop_last()[i] == keys[i]);
    }
}

} // verus!
