//! That a producer which sends a batch once more is answered as it was the first time.

use crate::error::ControlErrorView;
use crate::log_append;
use crate::log_append::{Verdict, PRODUCER_BATCH_HISTORY_LIMIT};
use crate::log_laws;
use crate::log_objects;
use crate::log_retention;
use crate::log_types::{BatchDraftView, LogStateView, ObjectRefView, ProducerBatch, StoredSpanView};
use crate::observability;
use crate::partition::{PartitionKey, PartitionKeyView};
use crate::sorted_map;
use crate::trim_laws;
use vstd::prelude::*;

verus! {

/// The spans by which repeated batches of a producer are known, the newest first.
pub open spec fn remembers(s: LogStateView, p: PartitionKeyView, producer: ProducerBatch) -> Seq<StoredSpanView> {
    match log_append::sequence_of(s, p, producer) {
        None => Seq::empty(),
        Some(sequence) => log_append::recent(
            s.partitions[p].spans,
            sequence.history_start_offset,
            producer.producer_id,
            producer.producer_epoch,
            PRODUCER_BATCH_HISTORY_LIMIT as nat,
        ),
    }
}

/// The spans that are still known once one more is.
pub open spec fn all_but_the_last(spans: Seq<StoredSpanView>) -> Seq<StoredSpanView> {
    if spans.len() < PRODUCER_BATCH_HISTORY_LIMIT {
        spans
    } else {
        spans.take(PRODUCER_BATCH_HISTORY_LIMIT - 1)
    }
}

/// Whether a producer is known and in its present epoch.
pub open spec fn is_current(s: LogStateView, producer: ProducerBatch) -> bool {
    s.producers.contains_key(producer.producer_id) && s.producers[producer.producer_id].epoch == producer.producer_epoch
}

/// Whether an object could be committed as far as its key is concerned.
pub open spec fn is_new_object(s: LogStateView, key: Seq<char>) -> bool {
    !s.objects.contains_key(key) && !s.orphan_gc_claims.contains_key(key)
}

proof fn fewer_are_recent(spans: Seq<StoredSpanView>, floor: i64, producer_id: i64, epoch: i16, limit: nat)
    requires
        limit > 0,
    ensures
        ({
            let all = log_append::recent(spans, floor, producer_id, epoch, limit);
            &&& all.len() <= limit
            &&& log_append::recent(spans, floor, producer_id, epoch, (limit - 1) as nat) == if all.len() < limit {
                all
            } else {
                all.take(limit - 1)
            }
        }),
    decreases spans.len(),
{
    let all = log_append::recent(spans, floor, producer_id, epoch, limit);
    let fewer = log_append::recent(spans, floor, producer_id, epoch, (limit - 1) as nat);
    if spans.len() > 0 {
        let rest = spans.drop_last();
        if log_append::written_by(spans.last(), floor, producer_id, epoch) {
            let older = log_append::recent(rest, floor, producer_id, epoch, (limit - 1) as nat);
            assert(all == seq![spans.last()] + older);
            if limit == 1 {
                assert(older.len() == 0);
                assert(fewer =~= all.take(0));
            } else {
                fewer_are_recent(rest, floor, producer_id, epoch, (limit - 1) as nat);
                let oldest = log_append::recent(rest, floor, producer_id, epoch, (limit - 2) as nat);
                assert(fewer == seq![spans.last()] + oldest);
                if all.len() < limit {
                    assert(fewer =~= all);
                } else {
                    assert(fewer =~= all.take(limit - 1));
                }
            }
        } else {
            fewer_are_recent(rest, floor, producer_id, epoch, limit);
            if limit == 1 {
                assert(fewer =~= Seq::empty());
                assert(log_append::recent(rest, floor, producer_id, epoch, 0) =~= Seq::empty());
            }
        }
    }
}

proof fn floors_can_be_raised(spans: Seq<StoredSpanView>, floor: i64, higher: i64, producer_id: i64, epoch: i16, limit: nat)
    requires
        floor <= higher,
        forall|i: int|
            0 <= i < log_append::recent(spans, floor, producer_id, epoch, limit).len() ==> (#[trigger] log_append::recent(
                spans,
                floor,
                producer_id,
                epoch,
                limit,
            )[i]).base_offset >= higher,
    ensures
        log_append::recent(spans, higher, producer_id, epoch, limit) == log_append::recent(spans, floor, producer_id, epoch, limit),
    decreases spans.len(),
{
    let all = log_append::recent(spans, floor, producer_id, epoch, limit);
    if spans.len() > 0 && limit > 0 {
        let rest = spans.drop_last();
        if log_append::written_by(spans.last(), floor, producer_id, epoch) {
            let older = log_append::recent(rest, floor, producer_id, epoch, (limit - 1) as nat);
            assert(all == seq![spans.last()] + older);
            assert(all[0] == spans.last());
            assert forall|i: int| 0 <= i < older.len() implies (#[trigger] older[i]).base_offset >= higher by {
                assert(all[i + 1] == older[i]);
            }
            floors_can_be_raised(rest, floor, higher, producer_id, epoch, (limit - 1) as nat);
        } else {
            floors_can_be_raised(rest, floor, higher, producer_id, epoch, limit);
        }
    }
}

proof fn oldest_is_one_of_them(spans: Seq<StoredSpanView>)
    requires
        spans.len() > 0,
    ensures
        log_append::oldest(spans) is Some,
        exists|i: int| 0 <= i < spans.len() && (#[trigger] spans[i]).base_offset == log_append::oldest(spans)->0,
    decreases spans.len(),
{
    let rest = spans.drop_last();
    assert(spans[spans.len() - 1] == spans.last());
    if rest.len() > 0 {
        oldest_is_one_of_them(rest);
        let i = choose|i: int| 0 <= i < rest.len() && (#[trigger] rest[i]).base_offset == log_append::oldest(rest)->0;
        assert(spans[i] == rest[i]);
    }
}

/// A stored batch is the newest by which its producer's repeats are known, and pushes out none but
/// the oldest; what is known of other partitions and producers stays.
pub proof fn batches_are_remembered(s: LogStateView, object_key: Seq<char>, batch: BatchDraftView, p: PartitionKeyView, producer: ProducerBatch)
    requires
        log_laws::logs_are_sound(s),
        log_append::fits(s, batch),
        log_append::batch_stored(s, object_key, batch) is Ok,
        is_current(s, producer),
    ensures
        ({
            let (after, span, fresh) = log_append::batch_stored(s, object_key, batch)->Ok_0;
            let known = remembers(s, p, producer);
            &&& is_current(after, producer)
            &&& remembers(after, p, producer) == if fresh && p == batch.partition && batch.producer is Some
                && batch.producer->0.producer_id == producer.producer_id {
                seq![span] + all_but_the_last(known)
            } else {
                known
            }
        }),
{
    let (after, span, fresh) = log_append::batch_stored(s, object_key, batch)->Ok_0;
    let known = remembers(s, p, producer);
    let id = producer.producer_id;
    let epoch = producer.producer_epoch;
    let limit = PRODUCER_BATCH_HISTORY_LIMIT as nat;
    if fresh && p == batch.partition {
        let before = s.partitions[p];
        assert(log_laws::log_is_sound(p, before));
        let old = before.spans;
        let spans = after.partitions[p].spans;
        assert(spans == old.push(span));
        assert(spans.last() == span);
        assert(spans.drop_last() =~= old);
        let base = before.next_offset;
        assert forall|i: int| 0 <= i < old.len() implies (#[trigger] old[i]).base_offset < base by {
            assert(log_laws::span_fits(p, before.next_offset, old[i]));
        }
        if batch.producer is Some && batch.producer->0.producer_id == id {
            let start = after.producers[id].sequences[p].history_start_offset;
            match log_append::sequence_of(s, p, producer) {
                None => {
                    log_laws::nothing_is_recent(old, base, id, epoch, (limit - 1) as nat);
                    assert(remembers(after, p, producer) =~= seq![span] + all_but_the_last(known));
                },
                Some(sequence) => {
                    let floor = sequence.history_start_offset;
                    let latest = log_append::recent(spans, floor, id, epoch, limit);
                    fewer_are_recent(old, floor, id, epoch, limit);
                    if base >= floor {
                        assert(log_append::written_by(span, floor, id, epoch));
                        assert(latest == seq![span] + all_but_the_last(known));
                        oldest_is_one_of_them(latest);
                        log_objects::recent_is_written(spans, floor, id, epoch, limit);
                        let i = choose|i: int| 0 <= i < latest.len() && (#[trigger] latest[i]).base_offset == log_append::oldest(latest)->0;
                        assert(log_append::written_by(latest[i], floor, id, epoch));
                        assert(start == log_append::oldest(latest)->0);
                        assert forall|j: int| 0 <= j < latest.len() implies (#[trigger] latest[j]).base_offset >= start by {
                            log_laws::oldest_is_no_later(latest, j);
                        }
                        floors_can_be_raised(spans, floor, start, id, epoch, limit);
                    } else {
                        assert forall|i: int| 0 <= i < spans.len() implies (#[trigger] spans[i]).base_offset < floor by {
                            if i < old.len() {
                                assert(spans[i] == old[i]);
                            }
                        }
                        assert forall|i: int| 0 <= i < old.len() implies (#[trigger] old[i]).base_offset < floor by {
                            assert(spans[i] == old[i]);
                        }
                        log_laws::nothing_is_recent(spans, floor, id, epoch, limit);
                        log_laws::nothing_is_recent(old, floor, id, epoch, limit);
                        log_laws::nothing_is_recent(old, base, id, epoch, (limit - 1) as nat);
                        assert(start == base);
                        assert(remembers(after, p, producer) =~= seq![span] + all_but_the_last(known));
                    }
                },
            }
        } else {
            assert(log_append::sequence_of(after, p, producer) == log_append::sequence_of(s, p, producer));
        }
    } else if fresh {
        assert(after.partitions[p] == s.partitions[p]);
        assert(log_append::sequence_of(after, p, producer) == log_append::sequence_of(s, p, producer));
    }
}

proof fn first_matches_stay_first(spans: Seq<StoredSpanView>, k: int, first: i32, last: i32, span: StoredSpanView)
    requires
        0 <= k <= spans.len(),
        log_append::with_sequences(spans, first, last) == Some(span),
        spans.take(k).contains(span),
    ensures
        log_append::with_sequences(spans.take(k), first, last) == Some(span),
    decreases spans.len(),
{
    let few = spans.take(k);
    let at = choose|i: int| 0 <= i < few.len() && few[i] == span;
    assert(few[0] == spans[0]);
    if !(spans[0].producer is Some && spans[0].producer->0.first_sequence == first && spans[0].producer->0.last_sequence == last) {
        let rest = spans.drop_first();
        log_laws::found_sequences_are_right(rest, first, last);
        assert(at > 0);
        assert(few.drop_first() =~= rest.take(k - 1));
        assert(rest.take(k - 1)[at - 1] == span);
        first_matches_stay_first(rest, k - 1, first, last, span);
    }
}

/// The last spans that a producer wrote to a partition in its present epoch, the newest first, as
/// many as its repeats can be known by.
pub open spec fn latest(s: LogStateView, p: PartitionKeyView, producer: ProducerBatch) -> Seq<StoredSpanView> {
    log_append::recent(
        s.partitions[p].spans,
        i64::MIN,
        producer.producer_id,
        producer.producer_epoch,
        PRODUCER_BATCH_HISTORY_LIMIT as nat,
    )
}

/// Whether a span is the one by which a batch is known, for as long as it is one of the last that its
/// producer wrote.
pub open spec fn stands_for(s: LogStateView, batch: BatchDraftView, span: StoredSpanView) -> bool {
    let p = batch.partition;
    let producer = batch.producer->0;
    &&& batch.producer is Some
    &&& is_current(s, producer)
    &&& s.partitions.contains_key(p)
    &&& span.base_offset < s.partitions[p].next_offset
    &&& latest(s, p, producer).contains(span) ==> {
        &&& log_append::sequence_of(s, p, producer) is Some
        &&& log_append::sequence_of(s, p, producer)->0.history_start_offset <= span.base_offset
        &&& log_append::with_sequences(latest(s, p, producer), producer.first_sequence, producer.last_sequence) == Some(span)
    }
}

proof fn found_above_a_floor(
    spans: Seq<StoredSpanView>,
    floor: i64,
    producer: ProducerBatch,
    limit: nat,
    higher: nat,
    span: StoredSpanView,
)
    requires
        log_append::with_sequences(
            log_append::recent(spans, i64::MIN, producer.producer_id, producer.producer_epoch, limit),
            producer.first_sequence,
            producer.last_sequence,
        ) == Some(span),
        span.base_offset >= floor,
        limit <= higher,
    ensures
        log_append::with_sequences(
            log_append::recent(spans, floor, producer.producer_id, producer.producer_epoch, higher),
            producer.first_sequence,
            producer.last_sequence,
        ) == Some(span),
    decreases spans.len(),
{
    let id = producer.producer_id;
    let epoch = producer.producer_epoch;
    let all = log_append::recent(spans, i64::MIN, id, epoch, limit);
    if spans.len() > 0 && limit > 0 {
        let rest = spans.drop_last();
        let last = spans.last();
        if log_append::written_by(last, i64::MIN, id, epoch) {
            let older = log_append::recent(rest, i64::MIN, id, epoch, (limit - 1) as nat);
            assert(all.drop_first() =~= older);
            let above = log_append::recent(spans, floor, id, epoch, higher);
            if last.producer->0.first_sequence == producer.first_sequence && last.producer->0.last_sequence == producer.last_sequence {
                assert(all[0] == last);
                assert(above[0] == last);
            } else if last.base_offset >= floor {
                found_above_a_floor(rest, floor, producer, (limit - 1) as nat, (higher - 1) as nat, span);
                assert(above.drop_first() =~= log_append::recent(rest, floor, id, epoch, (higher - 1) as nat));
                assert(above[0] == last);
            } else {
                found_above_a_floor(rest, floor, producer, (limit - 1) as nat, higher, span);
            }
        } else {
            found_above_a_floor(rest, floor, producer, limit, higher, span);
        }
    }
}

proof fn found_without_a_floor(spans: Seq<StoredSpanView>, floor: i64, producer: ProducerBatch, limit: nat)
    requires
        forall|i: int, j: int| 0 <= i < j < spans.len() ==> (#[trigger] spans[i]).base_offset < (#[trigger] spans[j]).base_offset,
        log_append::with_sequences(
            log_append::recent(spans, floor, producer.producer_id, producer.producer_epoch, limit),
            producer.first_sequence,
            producer.last_sequence,
        ) is Some,
    ensures
        log_append::with_sequences(
            log_append::recent(spans, i64::MIN, producer.producer_id, producer.producer_epoch, limit),
            producer.first_sequence,
            producer.last_sequence,
        ) == log_append::with_sequences(
            log_append::recent(spans, floor, producer.producer_id, producer.producer_epoch, limit),
            producer.first_sequence,
            producer.last_sequence,
        ),
    decreases spans.len(),
{
    let id = producer.producer_id;
    let epoch = producer.producer_epoch;
    let above = log_append::recent(spans, floor, id, epoch, limit);
    if spans.len() > 0 && limit > 0 {
        let rest = spans.drop_last();
        let last = spans.last();
        if last.base_offset < floor {
            assert forall|i: int| 0 <= i < spans.len() implies (#[trigger] spans[i]).base_offset < floor by {
                if i < spans.len() - 1 {
                    assert(spans[i].base_offset < spans[spans.len() - 1].base_offset);
                }
            }
            log_laws::nothing_is_recent(spans, floor, id, epoch, limit);
        } else if log_append::written_by(last, floor, id, epoch) {
            let all = log_append::recent(spans, i64::MIN, id, epoch, limit);
            assert(above.drop_first() =~= log_append::recent(rest, floor, id, epoch, (limit - 1) as nat));
            assert(all.drop_first() =~= log_append::recent(rest, i64::MIN, id, epoch, (limit - 1) as nat));
            assert(above[0] == last && all[0] == last);
            if !(last.producer->0.first_sequence == producer.first_sequence && last.producer->0.last_sequence == producer.last_sequence) {
                found_without_a_floor(rest, floor, producer, (limit - 1) as nat);
            }
        } else {
            found_without_a_floor(rest, floor, producer, limit);
        }
    }
}

/// A batch is known by the span that stands for it.
proof fn repeats_find_what_stands(s: LogStateView, batch: BatchDraftView, span: StoredSpanView)
    requires
        stands_for(s, batch, span),
        latest(s, batch.partition, batch.producer->0).contains(span),
    ensures
        log_append::repeated(s, batch.partition, batch.producer->0) == Some(span),
{
    found_above_a_floor(
        s.partitions[batch.partition].spans,
        log_append::sequence_of(s, batch.partition, batch.producer->0)->0.history_start_offset,
        batch.producer->0,
        PRODUCER_BATCH_HISTORY_LIMIT as nat,
        PRODUCER_BATCH_HISTORY_LIMIT as nat,
        span,
    );
}

/// The span that answers a batch stands for it.
proof fn found_spans_stand(s: LogStateView, batch: BatchDraftView, span: StoredSpanView)
    requires
        log_laws::logs_are_sound(s),
        batch.producer is Some,
        is_current(s, batch.producer->0),
        s.partitions.contains_key(batch.partition),
        log_append::repeated(s, batch.partition, batch.producer->0) == Some(span),
    ensures
        stands_for(s, batch, span),
{
    let p = batch.partition;
    let producer = batch.producer->0;
    let spans = s.partitions[p].spans;
    let floor = log_append::sequence_of(s, p, producer)->0.history_start_offset;
    assert(log_laws::log_is_sound(p, s.partitions[p]));
    assert forall|i: int, j: int| 0 <= i < j < spans.len() implies (#[trigger] spans[i]).base_offset < (#[trigger] spans[j]).base_offset by {
        assert(log_laws::span_fits(p, s.partitions[p].next_offset, spans[i]));
        assert(spans[i].last_offset < spans[j].base_offset);
    }
    found_without_a_floor(spans, floor, producer, PRODUCER_BATCH_HISTORY_LIMIT as nat);
    let known = remembers(s, p, producer);
    log_laws::found_sequences_are_right(known, producer.first_sequence, producer.last_sequence);
    log_objects::recent_is_written(spans, floor, producer.producer_id, producer.producer_epoch, PRODUCER_BATCH_HISTORY_LIMIT as nat);
    let i = choose|i: int| 0 <= i < known.len() && known[i] == span;
    assert(log_append::written_by(known[i], floor, producer.producer_id, producer.producer_epoch));
    log_laws::repeats_are_found_in_the_log(s, p, producer);
    let k = choose|k: int| 0 <= k < spans.len() && spans[k] == span;
    assert(log_laws::span_fits(p, s.partitions[p].next_offset, spans[k]));
}

proof fn stands_after_batch(s: LogStateView, object_key: Seq<char>, other: BatchDraftView, batch: BatchDraftView, span: StoredSpanView)
    requires
        log_laws::logs_are_sound(s),
        log_append::fits(s, other),
        log_append::batch_stored(s, object_key, other) is Ok,
        stands_for(s, batch, span),
    ensures
        stands_for(log_append::batch_stored(s, object_key, other)->Ok_0.0, batch, span),
{
    let (after, new, fresh) = log_append::batch_stored(s, object_key, other)->Ok_0;
    let p = batch.partition;
    let producer = batch.producer->0;
    let id = producer.producer_id;
    let epoch = producer.producer_epoch;
    let limit = PRODUCER_BATCH_HISTORY_LIMIT as nat;
    log_laws::batches_extend_their_log(s, object_key, other);
    if fresh && p == other.partition {
        let old = s.partitions[p].spans;
        let spans = after.partitions[p].spans;
        assert(spans.last() == new);
        assert(spans.drop_last() =~= old);
        assert(log_laws::log_is_sound(p, after.partitions[p]));
        assert(log_laws::span_fits(p, after.partitions[p].next_offset, spans[spans.len() - 1]));
        if other.producer is Some && other.producer->0.producer_id == id {
            assert(log_append::written_by(new, i64::MIN, id, epoch));
            let fewer = log_append::recent(old, i64::MIN, id, epoch, (limit - 1) as nat);
            let now = latest(after, p, producer);
            assert(now == seq![new] + fewer);
            if now.contains(span) {
                let known = latest(s, p, producer);
                let i = choose|i: int| 0 <= i < now.len() && now[i] == span;
                assert(i > 0);
                assert(fewer[i - 1] == span);
                fewer_are_recent(old, i64::MIN, id, epoch, limit);
                assert(known[i - 1] == span);
                assert(fewer =~= known.take(fewer.len() as int));
                first_matches_stay_first(known, fewer.len() as int, producer.first_sequence, producer.last_sequence, span);
                repeats_find_what_stands(s, batch, span);
                if new.producer->0.first_sequence == producer.first_sequence && new.producer->0.last_sequence == producer.last_sequence {
                    assert(log_append::repeated(s, p, other.producer->0) == log_append::repeated(s, p, producer));
                }
                assert(now[0] == new);
                assert(now.drop_first() =~= fewer);
                assert(log_append::with_sequences(now, producer.first_sequence, producer.last_sequence) == Some(span));
                let floor = log_append::sequence_of(s, p, producer)->0.history_start_offset;
                found_above_a_floor(spans, floor, producer, limit, limit, span);
                let recent = log_append::recent(spans, floor, id, epoch, limit);
                log_laws::found_sequences_are_right(recent, producer.first_sequence, producer.last_sequence);
                let j = choose|j: int| 0 <= j < recent.len() && recent[j] == span;
                log_laws::oldest_is_no_later(recent, j);
            }
        } else {
            assert(latest(after, p, producer) == latest(s, p, producer));
        }
    } else if fresh {
        assert(after.partitions[p] == s.partitions[p]);
    }
}

proof fn stands_after_batches(
    s: LogStateView,
    object_key: Seq<char>,
    batches: Seq<BatchDraftView>,
    n: nat,
    batch: BatchDraftView,
    span: StoredSpanView,
)
    requires
        log_laws::logs_are_sound(s),
        log_append::has_room(s, batches, 0),
        sorted_map::lists_in_order::<(PartitionKey, usize)>(log_append::storage_order(batches), log_append::places(batches)),
        log_append::storage_order(batches).len() == batches.len(),
        n <= batches.len(),
        log_append::batches_stored(s, object_key, batches, n) is Ok,
        stands_for(s, batch, span),
    ensures
        stands_for(log_append::batches_stored(s, object_key, batches, n)->Ok_0.state, batch, span),
    decreases n,
{
    if n > 0 {
        let m = (n - 1) as nat;
        stands_after_batches(s, object_key, batches, m, batch, span);
        log_laws::first_batches_extend_their_logs(s, object_key, batches, m);
        let before = log_append::batches_stored(s, object_key, batches, m)->Ok_0;
        log_append::first_batch_fits(before.state, batches, m);
        let place = log_append::storage_order(batches)[n - 1].1;
        stands_after_batch(before.state, object_key, batches[place as int], batch, span);
    }
}

proof fn spans_stand_for_batches(s: LogStateView, object_key: Seq<char>, batches: Seq<BatchDraftView>, n: nat)
    requires
        log_laws::logs_are_sound(s),
        log_append::has_room(s, batches, 0),
        sorted_map::lists_in_order::<(PartitionKey, usize)>(log_append::storage_order(batches), log_append::places(batches)),
        log_append::storage_order(batches).len() == batches.len(),
        n <= batches.len(),
        log_append::batches_stored(s, object_key, batches, n) is Ok,
    ensures
        ({
            let stored = log_append::batches_stored(s, object_key, batches, n)->Ok_0;
            forall|place: usize| #[trigger]
                stored.spans.contains_key(place) && batches[place as int].producer is Some ==> stands_for(
                    stored.state,
                    batches[place as int],
                    stored.spans[place],
                )
        }),
    decreases n,
{
    if n > 0 {
        let m = (n - 1) as nat;
        spans_stand_for_batches(s, object_key, batches, m);
        log_laws::first_batches_extend_their_logs(s, object_key, batches, m);
        let before = log_append::batches_stored(s, object_key, batches, m)->Ok_0;
        let stored = log_append::batches_stored(s, object_key, batches, n)->Ok_0;
        log_append::first_batch_fits(before.state, batches, m);
        let last = log_append::storage_order(batches)[n - 1].1;
        let batch = batches[last as int];
        let (after, span, fresh) = log_append::batch_stored(before.state, object_key, batch)->Ok_0;
        log_laws::batches_extend_their_log(before.state, object_key, batch);
        assert forall|place: usize| #[trigger] stored.spans.contains_key(place) && batches[place as int].producer is Some implies stands_for(
            stored.state,
            batches[place as int],
            stored.spans[place],
        ) by {
            if place != last {
                assert(before.spans.contains_key(place));
                stands_after_batch(before.state, object_key, batch, batches[place as int], before.spans[place]);
            } else {
                log_laws::immediate_repeats_are_answered_alike(before.state, object_key, batch, object_key);
                assert(log_append::judged(after, batch) == Ok::<Verdict, ControlErrorView>(Verdict::Repeated(span)));
                found_spans_stand(after, batch, span);
            }
        }
    }
}

proof fn stands_after_commit(s: LogStateView, object: ObjectRefView, batches: Seq<BatchDraftView>, batch: BatchDraftView, span: StoredSpanView)
    requires
        log_laws::logs_are_sound(s),
        batches.len() <= usize::MAX,
        log_append::has_room(s, batches, 0),
        stands_for(s, batch, span),
    ensures
        stands_for(log_objects::committed(s, object, batches).0, batch, span),
{
    let (after, answer) = log_objects::committed(s, object, batches);
    if answer is Ok {
        log_laws::places_are_listed(batches);
        log_append::every_batch_has_a_place(batches);
        stands_after_batches(s, object.key, batches, batches.len(), batch, span);
        let stored = log_append::batches_stored(s, object.key, batches, batches.len())->Ok_0;
        stands_when_left_alone(stored.state, after, batch, span);
    }
}

/// Whether a step leaves a partition's log, and what it knows of a producer, as they were.
pub open spec fn leaves_alone(s: LogStateView, t: LogStateView, p: PartitionKeyView, producer_id: i64) -> bool {
    &&& s.partitions.contains_key(p) ==> t.partitions.contains_key(p) && t.partitions[p].spans == s.partitions[p].spans
        && t.partitions[p].next_offset == s.partitions[p].next_offset
    &&& s.producers.contains_key(producer_id) ==> t.producers.contains_key(producer_id) && t.producers[producer_id].epoch
        == s.producers[producer_id].epoch && t.producers[producer_id].sequences.get(p) == s.producers[producer_id].sequences.get(p)
}

proof fn stands_when_left_alone(s: LogStateView, t: LogStateView, batch: BatchDraftView, span: StoredSpanView)
    requires
        batch.producer is Some,
        leaves_alone(s, t, batch.partition, batch.producer->0.producer_id),
        stands_for(s, batch, span),
    ensures
        stands_for(t, batch, span),
{
    let producer = batch.producer->0;
    assert(log_append::sequence_of(s, batch.partition, producer) == log_append::sequence_of(t, batch.partition, producer));
}

proof fn recent_of_the_rest(spans: Seq<StoredSpanView>, n: int, floor: i64, producer_id: i64, epoch: i16, limit: nat)
    requires
        0 <= n <= spans.len(),
    ensures
        ({
            let all = log_append::recent(spans, floor, producer_id, epoch, limit);
            let left = log_append::recent(spans.skip(n), floor, producer_id, epoch, limit);
            left.len() <= all.len() && left == all.take(left.len() as int)
        }),
    decreases spans.len(),
{
    let all = log_append::recent(spans, floor, producer_id, epoch, limit);
    let left = log_append::recent(spans.skip(n), floor, producer_id, epoch, limit);
    if n < spans.len() && limit > 0 {
        let rest = spans.drop_last();
        assert(spans.skip(n).drop_last() =~= rest.skip(n));
        assert(spans.skip(n).last() == spans.last());
        if log_append::written_by(spans.last(), floor, producer_id, epoch) {
            recent_of_the_rest(rest, n, floor, producer_id, epoch, (limit - 1) as nat);
            let older = log_append::recent(rest, floor, producer_id, epoch, (limit - 1) as nat);
            let few = log_append::recent(rest.skip(n), floor, producer_id, epoch, (limit - 1) as nat);
            assert(left == seq![spans.last()] + few);
            assert(left =~= all.take(left.len() as int));
        } else {
            recent_of_the_rest(rest, n, floor, producer_id, epoch, limit);
        }
    } else {
        assert(left =~= all.take(0));
    }
}

/// What stands for a batch does so when the oldest spans of a log are let go.
proof fn stands_after_loss(s: LogStateView, t: LogStateView, q: PartitionKeyView, n: int, batch: BatchDraftView, span: StoredSpanView)
    requires
        s.partitions.contains_key(q),
        0 <= n <= s.partitions[q].spans.len(),
        t.partitions.dom() == s.partitions.dom(),
        t.partitions[q].spans == s.partitions[q].spans.skip(n),
        t.partitions[q].next_offset == s.partitions[q].next_offset,
        forall|r: PartitionKeyView| #[trigger] s.partitions.contains_key(r) && r != q ==> t.partitions[r] == s.partitions[r],
        t.producers == log_objects::reconciled(s.producers, q, t.partitions[q].spans),
        stands_for(s, batch, span),
    ensures
        stands_for(t, batch, span),
{
    let p = batch.partition;
    let producer = batch.producer->0;
    let id = producer.producer_id;
    let epoch = producer.producer_epoch;
    let limit = PRODUCER_BATCH_HISTORY_LIMIT as nat;
    assert(t.partitions.contains_key(p));
    assert(t.producers.contains_key(id));
    assert(t.producers[id] == log_objects::reconciled_producer(s.producers[id], id, q, t.partitions[q].spans));
    if p == q {
        let left = latest(t, p, producer);
        let known = latest(s, p, producer);
        recent_of_the_rest(s.partitions[p].spans, n, i64::MIN, id, epoch, limit);
        if left.contains(span) {
            let i = choose|i: int| 0 <= i < left.len() && left[i] == span;
            assert(known[i] == span);
            assert(known.contains(span));
            first_matches_stay_first(known, left.len() as int, producer.first_sequence, producer.last_sequence, span);
            log_objects::recent_is_written(t.partitions[p].spans, i64::MIN, id, epoch, limit);
            assert(log_append::written_by(left[0], i64::MIN, id, epoch));
            log_laws::oldest_is_no_later(left, i);
        }
    } else {
        assert(log_append::sequence_of(t, p, producer) == log_append::sequence_of(s, p, producer));
    }
}

proof fn nothing_reaches(spans: Seq<StoredSpanView>, start: i64)
    requires
        forall|i: int| 0 <= i < spans.len() ==> (#[trigger] spans[i]).last_offset < start,
    ensures
        log_retention::reaching(spans, start).len() == 0,
    decreases spans.len(),
{
    if spans.len() > 0 {
        assert(spans[spans.len() - 1].last_offset < start);
        assert forall|i: int| 0 <= i < spans.drop_last().len() implies (#[trigger] spans.drop_last()[i]).last_offset < start by {
            assert(spans[i].last_offset < start);
        }
        nothing_reaches(spans.drop_last(), start);
    }
}

proof fn the_newest_reach(spans: Seq<StoredSpanView>, start: i64) -> (n: int)
    requires
        forall|i: int, j: int| 0 <= i < j < spans.len() ==> (#[trigger] spans[i]).last_offset < (#[trigger] spans[j]).last_offset,
    ensures
        0 <= n <= spans.len(),
        log_retention::reaching(spans, start) == spans.skip(n),
    decreases spans.len(),
{
    if spans.len() == 0 {
        assert(spans.skip(0) =~= spans);
        0
    } else if spans.last().last_offset >= start {
        let n = the_newest_reach(spans.drop_last(), start);
        assert(spans.drop_last().skip(n).push(spans.last()) =~= spans.skip(n));
        n
    } else {
        assert forall|i: int| 0 <= i < spans.len() implies (#[trigger] spans[i]).last_offset < start by {
            if i < spans.len() - 1 {
                assert(spans[i].last_offset < spans[spans.len() - 1].last_offset);
            }
        }
        nothing_reaches(spans, start);
        assert(log_retention::reaching(spans, start) =~= spans.skip(spans.len() as int));
        spans.len() as int
    }
}

proof fn stands_after_deletion(
    s: LogStateView,
    q: PartitionKeyView,
    before_offset: i64,
    now_ms: i64,
    batch: BatchDraftView,
    span: StoredSpanView,
)
    requires
        log_laws::logs_are_sound(s),
        stands_for(s, batch, span),
    ensures
        stands_for(log_retention::records_deleted(s, q, before_offset, now_ms).0, batch, span),
{
    let (after, answer) = log_retention::records_deleted(s, q, before_offset, now_ms);
    if answer is Ok {
        let log = s.partitions[q];
        assert(log_laws::log_is_sound(q, log));
        assert forall|i: int, j: int| 0 <= i < j < log.spans.len() implies (#[trigger] log.spans[i]).last_offset < (
        #[trigger] log.spans[j]).last_offset by {
            assert(log_laws::span_fits(q, log.next_offset, log.spans[j]));
            assert(log.spans[i].last_offset < log.spans[j].base_offset);
        }
        let n = the_newest_reach(log.spans, answer->Ok_0);
        assert(after.partitions.dom() =~= s.partitions.dom());
        stands_after_loss(s, after, q, n, batch, span);
    }
}

proof fn stands_after_passes(
    s: LogStateView,
    keys: Seq<PartitionKeyView>,
    now_ms: i64,
    n: nat,
    batch: BatchDraftView,
    span: StoredSpanView,
)
    requires
        n <= keys.len(),
        forall|i: int| 0 <= i < keys.len() ==> s.partitions.contains_key(#[trigger] keys[i]),
        stands_for(s, batch, span),
    ensures
        log_retention::partitions_retained(s, keys, now_ms, n).partitions.dom() == s.partitions.dom(),
        stands_for(log_retention::partitions_retained(s, keys, now_ms, n), batch, span),
    decreases n,
{
    if n > 0 {
        stands_after_passes(s, keys, now_ms, (n - 1) as nat, batch, span);
        let before = log_retention::partitions_retained(s, keys, now_ms, (n - 1) as nat);
        let after = log_retention::partitions_retained(s, keys, now_ms, n);
        let q = keys[n - 1];
        let spans = before.partitions[q].spans;
        let gone = log_retention::excess_of(before, q, now_ms) as int;
        if gone > 0 {
            trim_laws::excess_is_within(before, q, spans, 0, observability::total_bytes(spans), now_ms, before.topic_configs[q.topic]);
            assert(after.partitions.dom() =~= before.partitions.dom());
            stands_after_loss(before, after, q, gone, batch, span);
        }
    }
}

proof fn stands_after_retention(s: LogStateView, now_ms: i64, grace_ms: i64, batch: BatchDraftView, span: StoredSpanView)
    requires
        s.partitions.dom().finite(),
        stands_for(s, batch, span),
    ensures
        stands_for(log_retention::retained(s, now_ms, grace_ms).0, batch, span),
{
    let keys = sorted_map::sorted_keys::<PartitionKey>(s.partitions.dom());
    sorted_map::finite_sets_are_listed::<PartitionKey>(s.partitions.dom());
    assert forall|i: int| 0 <= i < keys.len() implies s.partitions.contains_key(#[trigger] keys[i]) by {
        assert(keys.to_set().contains(keys[i]));
    }
    stands_after_passes(s, keys, now_ms, keys.len(), batch, span);
    let trimmed = log_retention::partitions_retained(s, keys, now_ms, keys.len());
    stands_when_left_alone(trimmed, log_retention::retained(s, now_ms, grace_ms).0, batch, span);
}

/// A batch that is sent again, alone and in a new object, is answered with the span by which it is
/// known, and nothing is stored. It is known by the newest span with its sequence numbers, among the
/// last few that its producer wrote in its present epoch.
pub proof fn known_batches_are_answered_alike(s: LogStateView, object: ObjectRefView, batch: BatchDraftView, i: int)
    requires
        log_append::bounds_hold(batch),
        batch.producer is Some,
        log_append::batch_transaction(s, batch) is Ok,
        s.partitions.contains_key(batch.partition),
        is_new_object(s, object.key),
        0 <= i < remembers(s, batch.partition, batch.producer->0).len(),
        remembers(s, batch.partition, batch.producer->0)[i].producer == batch.producer,
        forall|j: int| 0 <= j < i ==> (#[trigger] remembers(s, batch.partition, batch.producer->0)[j]).producer != batch.producer,
    ensures
        ({
            let span = remembers(s, batch.partition, batch.producer->0)[i];
            &&& s.partitions[batch.partition].spans.contains(span)
            &&& log_objects::committed(s, object, seq![batch]).1 == Ok::<Seq<StoredSpanView>, ControlErrorView>(seq![span])
            &&& log_objects::committed(s, object, seq![batch]).0 == (LogStateView {
                staged_objects: s.staged_objects.remove(span.object_key),
                ..s
            })
            &&& log_laws::objects_are_held(s) && log_laws::announced_are_not_stored(s) ==> log_objects::committed(s, object, seq![batch]).0 == s
        }),
{
    let producer = batch.producer->0;
    let known = remembers(s, batch.partition, producer);
    let span = known[i];
    let floor = log_append::sequence_of(s, batch.partition, producer)->0.history_start_offset;
    let limit = PRODUCER_BATCH_HISTORY_LIMIT as nat;
    log_objects::recent_is_written(s.partitions[batch.partition].spans, floor, producer.producer_id, producer.producer_epoch, limit);
    first_of_its_numbers(known, producer, i);
    assert(log_append::judged(s, batch) == Ok::<Verdict, ControlErrorView>(Verdict::Repeated(span)));
    log_laws::repeats_are_found_in_the_log(s, batch.partition, producer);
    one_batch_is_stored(s, object.key, batch);
    answered_alone(s, object, batch, span);
}

proof fn first_of_its_numbers(known: Seq<StoredSpanView>, producer: ProducerBatch, i: int)
    requires
        0 <= i < known.len(),
        known[i].producer == Some(producer),
        forall|j: int|
            0 <= j < known.len() ==> (#[trigger] known[j]).producer is Some && known[j].producer->0.producer_id == producer.producer_id
                && known[j].producer->0.producer_epoch == producer.producer_epoch,
        forall|j: int| 0 <= j < i ==> (#[trigger] known[j]).producer != Some(producer),
    ensures
        log_append::with_sequences(known, producer.first_sequence, producer.last_sequence) == Some(known[i]),
    decreases i,
{
    if i > 0 {
        assert(known[0].producer != Some(producer));
        let rest = known.drop_first();
        assert forall|j: int| 0 <= j < rest.len() implies (#[trigger] rest[j]).producer is Some && rest[j].producer->0.producer_id
            == producer.producer_id && rest[j].producer->0.producer_epoch == producer.producer_epoch by {
            assert(rest[j] == known[j + 1]);
        }
        assert forall|j: int| 0 <= j < i - 1 implies (#[trigger] rest[j]).producer != Some(producer) by {
            assert(rest[j] == known[j + 1]);
        }
        assert(rest[i - 1] == known[i]);
        first_of_its_numbers(rest, producer, i - 1);
    }
}

proof fn one_batch_is_stored(s: LogStateView, object_key: Seq<char>, batch: BatchDraftView)
    ensures
        log_append::storage_order(seq![batch]) == seq![(batch.partition, 0usize)],
        match log_append::batch_stored(s, object_key, batch) {
            Err(refusal) => log_append::batches_stored(s, object_key, seq![batch], 1) == Err::<log_append::StoredBatches, ControlErrorView>(
                refusal,
            ),
            Ok((state, span, fresh)) => log_append::batches_stored(s, object_key, seq![batch], 1) == Ok::<
                log_append::StoredBatches,
                ControlErrorView,
            >(log_append::StoredBatches { state, spans: Map::empty().insert(0usize, span), object_used: fresh }),
        },
{
    let batches = seq![batch];
    log_laws::places_are_listed(batches);
    log_append::every_batch_has_a_place(batches);
    let order = log_append::storage_order(batches);
    assert(order.to_set().contains(order[0]));
    assert(log_append::places(batches).contains(order[0]));
    assert(order =~= seq![(batch.partition, 0usize)]);
    assert(log_append::batches_stored(s, object_key, batches, 0) == Ok::<log_append::StoredBatches, ControlErrorView>(
        log_append::StoredBatches { state: s, spans: Map::empty(), object_used: false },
    ));
    reveal_with_fuel(log_append::batches_stored, 2);
}

proof fn answered_alone(s: LogStateView, object: ObjectRefView, batch: BatchDraftView, span: StoredSpanView)
    requires
        is_new_object(s, object.key),
        s.partitions.contains_key(batch.partition),
        s.partitions[batch.partition].spans.contains(span),
        log_append::batch_stored(s, object.key, batch) == Ok::<(LogStateView, StoredSpanView, bool), ControlErrorView>((s, span, false)),
    ensures
        log_objects::committed(s, object, seq![batch]).1 == Ok::<Seq<StoredSpanView>, ControlErrorView>(seq![span]),
        log_objects::committed(s, object, seq![batch]).0 == (LogStateView { staged_objects: s.staged_objects.remove(span.object_key), ..s }),
        log_laws::objects_are_held(s) && log_laws::announced_are_not_stored(s) ==> log_objects::committed(s, object, seq![batch]).0 == s,
{
    one_batch_is_stored(s, object.key, batch);
    let stored = log_append::batches_stored(s, object.key, seq![batch], 1)->Ok_0;
    let spans = Seq::new(1, |i: int| stored.spans[i as usize]);
    assert(spans =~= seq![span]);
    assert(seq![span].drop_last() =~= Seq::empty());
    reveal_with_fuel(log_objects::unstaged, 2);
    if log_laws::objects_are_held(s) && log_laws::announced_are_not_stored(s) {
        let all = s.partitions[batch.partition].spans;
        let i = choose|i: int| 0 <= i < all.len() && all[i] == span;
        assert(log_laws::spans_are_held(s.objects, all));
        assert(s.objects.contains_key(all[i].object_key));
        assert(s.staged_objects.remove(span.object_key) =~= s.staged_objects);
    }
}

/// A batch that is neither known nor follows the last one of its producer is refused, and nothing
/// changes.
pub proof fn gaps_are_refused(s: LogStateView, object: ObjectRefView, batch: BatchDraftView)
    requires
        log_append::bounds_hold(batch),
        batch.producer is Some,
        log_append::batch_transaction(s, batch) is Ok,
        s.partitions.contains_key(batch.partition),
        is_new_object(s, object.key),
        log_append::sequence_of(s, batch.partition, batch.producer->0) is Some,
        forall|i: int|
            0 <= i < remembers(s, batch.partition, batch.producer->0).len() ==> (#[trigger] remembers(
                s,
                batch.partition,
                batch.producer->0,
            )[i]).producer != batch.producer,
        batch.producer->0.first_sequence != log_append::sequence_after(
            log_append::sequence_of(s, batch.partition, batch.producer->0)->0.last_sequence as int,
            1,
        ),
    ensures
        log_objects::committed(s, object, seq![batch]) == (
            s,
            Err::<Seq<StoredSpanView>, ControlErrorView>(
                ControlErrorView::OutOfOrderSequence {
                    producer_id: batch.producer->0.producer_id,
                    partition: batch.partition,
                    expected: log_append::sequence_after(
                        log_append::sequence_of(s, batch.partition, batch.producer->0)->0.last_sequence as int,
                        1,
                    ) as i32,
                    actual: batch.producer->0.first_sequence,
                },
            ),
        ),
{
    let producer = batch.producer->0;
    let known = remembers(s, batch.partition, producer);
    if log_append::repeated(s, batch.partition, producer) is Some {
        log_laws::repeats_are_found_in_the_log(s, batch.partition, producer);
        log_laws::found_sequences_are_right(known, producer.first_sequence, producer.last_sequence);
    }
    one_batch_is_stored(s, object.key, batch);
}

/// What may happen to a store between a batch and its repetition.
pub enum LogStep {
    /// An object is committed, or refused.
    Commit(ObjectRefView, Seq<BatchDraftView>),
    /// Records are deleted on request: the partition, the offset and the time.
    DeleteRecords(PartitionKeyView, i64, i64),
    /// A retention pass: the time and the grace for objects.
    Retain(i64, i64),
    /// Anything else that leaves the batch's log, and what it knows of the producer, as they were:
    /// objects that are announced or deleted, transactions that open or end in the same epoch, leases,
    /// topics that are created or grow, compactions of other logs.
    Other,
}

/// Whether a step takes a store from one state to the next, as a partition and a producer see it.
pub open spec fn takes(step: LogStep, s: LogStateView, t: LogStateView, p: PartitionKeyView, producer_id: i64) -> bool {
    match step {
        LogStep::Commit(object, batches) => batches.len() <= usize::MAX && log_append::has_room(s, batches, 0) && t
            == log_objects::committed(s, object, batches).0,
        LogStep::DeleteRecords(q, before_offset, now_ms) => t == log_retention::records_deleted(s, q, before_offset, now_ms).0,
        LogStep::Retain(now_ms, grace_ms) => t == log_retention::retained(s, now_ms, grace_ms).0,
        LogStep::Other => leaves_alone(s, t, p, producer_id),
    }
}

/// Whether the logs of a store are in order and their objects stored.
pub open spec fn is_in_order(s: LogStateView) -> bool {
    log_laws::logs_are_sound(s) && log_laws::objects_are_held(s) && s.partitions.dom().finite()
}

/// Whether some steps take a store through some states, all of them in order.
pub open spec fn leads(states: Seq<LogStateView>, steps: Seq<LogStep>, p: PartitionKeyView, producer_id: i64) -> bool {
    &&& states.len() == steps.len() + 1
    &&& forall|k: int| 0 <= k < states.len() ==> is_in_order(#[trigger] states[k])
    &&& forall|k: int| 0 <= k < steps.len() ==> takes(#[trigger] steps[k], states[k], states[k + 1], p, producer_id)
}

proof fn stands_after_steps(states: Seq<LogStateView>, steps: Seq<LogStep>, n: nat, batch: BatchDraftView, span: StoredSpanView)
    requires
        batch.producer is Some,
        leads(states, steps, batch.partition, batch.producer->0.producer_id),
        n <= steps.len(),
        stands_for(states[0], batch, span),
    ensures
        stands_for(states[n as int], batch, span),
    decreases n,
{
    if n > 0 {
        stands_after_steps(states, steps, (n - 1) as nat, batch, span);
        let before = states[n - 1];
        assert(is_in_order(before));
        assert(takes(steps[n - 1], before, states[n as int], batch.partition, batch.producer->0.producer_id));
        match steps[n - 1] {
            LogStep::Commit(object, batches) => stands_after_commit(before, object, batches, batch, span),
            LogStep::DeleteRecords(q, before_offset, now_ms) => stands_after_deletion(before, q, before_offset, now_ms, batch, span),
            LogStep::Retain(now_ms, grace_ms) => stands_after_retention(before, now_ms, grace_ms, batch, span),
            LogStep::Other => stands_when_left_alone(before, states[n as int], batch, span),
        }
    }
}

/// A batch that was committed and is sent again, alone and in a new object, is answered with the very
/// span as which it was stored, and nothing is stored, whatever other commits, deletions of records
/// and retention passes came between, for as long as that span is among the last few of the log that
/// its producer wrote in its present epoch.
pub proof fn repeats_are_answered_alike(
    s: LogStateView,
    object: ObjectRefView,
    batches: Seq<BatchDraftView>,
    i: int,
    states: Seq<LogStateView>,
    steps: Seq<LogStep>,
    again: ObjectRefView,
)
    requires
        log_laws::logs_are_sound(s),
        batches.len() <= usize::MAX,
        log_append::has_room(s, batches, 0),
        0 <= i < batches.len(),
        batches[i].producer is Some,
        log_objects::committed(s, object, batches).1 is Ok,
        leads(states, steps, batches[i].partition, batches[i].producer->0.producer_id),
        states[0] == log_objects::committed(s, object, batches).0,
        log_append::batch_transaction(states.last(), batches[i]) is Ok,
        latest(states.last(), batches[i].partition, batches[i].producer->0).contains((log_objects::committed(s, object, batches).1->Ok_0)[i]),
        is_new_object(states.last(), again.key),
    ensures
        ({
            let span = (log_objects::committed(s, object, batches).1->Ok_0)[i];
            let later = states.last();
            let (after, answer) = log_objects::committed(later, again, seq![batches[i]]);
            &&& answer == Ok::<Seq<StoredSpanView>, ControlErrorView>(seq![span])
            &&& after == (LogStateView { staged_objects: later.staged_objects.remove(span.object_key), ..later })
            &&& log_laws::announced_are_not_stored(later) ==> after == later
        }),
{
    let (first, answer) = log_objects::committed(s, object, batches);
    let batch = batches[i];
    let span = (answer->Ok_0)[i];
    let later = states.last();
    log_laws::places_are_listed(batches);
    log_append::every_batch_has_a_place(batches);
    log_laws::first_batches_extend_their_logs(s, object.key, batches, batches.len());
    spans_stand_for_batches(s, object.key, batches, batches.len());
    let order = log_append::storage_order(batches);
    let stored = log_append::batches_stored(s, object.key, batches, batches.len())->Ok_0;
    let place = (batch.partition, i as usize);
    assert(log_append::places(batches).contains(place));
    assert(order.to_set().contains(place));
    let k = choose|k: int| 0 <= k < order.len() && order[k] == place;
    assert(stored.spans.contains_key(order[k].1));
    assert(span == stored.spans[i as usize]);
    stands_when_left_alone(stored.state, first, batch, span);
    stands_after_steps(states, steps, steps.len(), batch, span);
    assert(is_in_order(states[states.len() - 1]));
    stored_batches_are_bounded(s, object.key, batches, batches.len(), k);
    repeats_find_what_stands(later, batch, span);
    log_laws::repeats_are_found_in_the_log(later, batch.partition, batch.producer->0);
    assert(log_append::judged(later, batch) == Ok::<Verdict, ControlErrorView>(Verdict::Repeated(span)));
    answered_alone(later, again, batch, span);
}

proof fn stored_batches_are_bounded(s: LogStateView, object_key: Seq<char>, batches: Seq<BatchDraftView>, n: nat, k: int)
    requires
        0 <= k < n,
        log_append::batches_stored(s, object_key, batches, n) is Ok,
    ensures
        log_append::bounds_hold(batches[log_append::storage_order(batches)[k].1 as int]),
    decreases n,
{
    if k < n - 1 {
        stored_batches_are_bounded(s, object_key, batches, (n - 1) as nat, k);
    }
}

} // verus!
