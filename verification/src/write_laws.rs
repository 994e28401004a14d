//! What producers may write, and what becomes of it.

use crate::log_append;
use crate::log_laws;
use crate::log_objects;
use crate::log_reads;
use crate::log_retention;
use crate::log_types::{
    BatchDraftView, LogStateView, MemoryProducerView, MemoryTransactionView, ObjectRefView, ProducerBatch, StoredSpanView, TransactionStatus,
};
use crate::numbers;
use crate::partition::{PartitionKey, PartitionKeyView};
use crate::producer_expiry;
use crate::read_laws;
use crate::sorted_map;
use crate::sorted_map::SortKey;
use vstd::prelude::*;

verus! {

/// The sequence number that comes after another: zero follows the greatest one.
pub open spec fn successor(sequence: i32) -> int {
    if sequence == i32::MAX {
        0
    } else {
        sequence + 1
    }
}

/// Whether a producer may write a batch at all: it is known and in its present epoch, and either
/// neither it nor the batch has a transactional id, or both have the same and its transaction is open,
/// is that of its epoch and, where that is asked for, takes the partition.
pub open spec fn may_write(s: LogStateView, batch: BatchDraftView) -> bool {
    match batch.producer {
        None => batch.transactional_id is None,
        Some(producer) => {
            let stored = s.producers[producer.producer_id];
            &&& s.producers.contains_key(producer.producer_id)
            &&& stored.epoch == producer.producer_epoch
            &&& stored.transactional_id == batch.transactional_id
            &&& batch.transactional_id is Some ==> {
                let transaction = s.transactions[stored.current_transaction_id->0];
                &&& stored.current_transaction_id is Some
                &&& s.transactions.contains_key(stored.current_transaction_id->0)
                &&& transaction.status == TransactionStatus::Ongoing
                &&& transaction.transactional_id == batch.transactional_id->0
                &&& transaction.producer.producer_id == producer.producer_id
                &&& transaction.producer.producer_epoch == producer.producer_epoch
                &&& batch.verify_transaction_partition ==> transaction.partitions.contains_key(batch.partition)
            }
        },
    }
}

/// The number of the last record that a partition remembers of a producer in its present epoch.
pub open spec fn last_number(s: LogStateView, p: PartitionKeyView, producer: ProducerBatch) -> Option<i32> {
    let known = s.producers[producer.producer_id].sequences;
    if known.contains_key(p) && known[p].epoch == producer.producer_epoch {
        Some(known[p].last_sequence)
    } else {
        None
    }
}

/// Whether a new batch follows what its producer wrote before: its first number is the next one. Where
/// nothing is remembered any number will do, unless the producer commits in two phases within a
/// transaction: then it starts at zero.
pub open spec fn is_next(s: LogStateView, batch: BatchDraftView) -> bool {
    match batch.producer {
        None => true,
        Some(producer) => match last_number(s, batch.partition, producer) {
            Some(last) => producer.first_sequence == successor(last),
            None => s.producers[producer.producer_id].two_phase_commit && batch.transactional_id is Some ==> producer.first_sequence == 0,
        },
    }
}

/// Which batches are stored: those that hold records, whose bytes do not end before they start, which
/// their producer may write, to a partition that exists, and which follow what it wrote before. One that
/// does not follow is accepted only as the repetition of one that the log holds.
pub proof fn batches_are_accepted_in_turn(s: LogStateView, object_key: Seq<char>, batch: BatchDraftView)
    requires
        log_laws::logs_are_sound(s),
    ensures
        ({
            let r = log_append::batch_stored(s, object_key, batch);
            let formed = batch.record_count > 0 && batch.byte_start <= batch.byte_end && may_write(s, batch) && s.partitions.contains_key(
                batch.partition,
            );
            &&& r is Ok ==> formed
            &&& r is Ok && r->Ok_0.2 ==> is_next(s, batch)
            &&& formed && is_next(s, batch) ==> r is Ok
            &&& r is Ok && !r->Ok_0.2 ==> {
                &&& r->Ok_0.0 == s
                &&& batch.producer is Some
                &&& s.partitions[batch.partition].spans.contains(r->Ok_0.1)
                &&& r->Ok_0.1.producer == batch.producer
            }
        }),
{
    if log_append::batch_stored(s, object_key, batch) is Ok && !log_append::batch_stored(s, object_key, batch)->Ok_0.2 {
        log_laws::repeats_are_found_in_the_log(s, batch.partition, batch.producer->0);
        let producer = batch.producer->0;
        let sequence = log_append::sequence_of(s, batch.partition, producer)->0;
        let recent = log_append::recent(
            s.partitions[batch.partition].spans,
            sequence.history_start_offset,
            producer.producer_id,
            producer.producer_epoch,
            log_append::PRODUCER_BATCH_HISTORY_LIMIT as nat,
        );
        log_laws::found_sequences_are_right(recent, producer.first_sequence, producer.last_sequence);
        log_objects::recent_is_written(
            s.partitions[batch.partition].spans,
            sequence.history_start_offset,
            producer.producer_id,
            producer.producer_epoch,
            log_append::PRODUCER_BATCH_HISTORY_LIMIT as nat,
        );
        let span = log_append::repeated(s, batch.partition, producer)->0;
        let i = choose|i: int| 0 <= i < recent.len() && recent[i] == span;
        assert(log_append::written_by(recent[i], sequence.history_start_offset, producer.producer_id, producer.producer_epoch));
    }
}

/// What is stored of a new batch: all that was sent, at the end of its log, one offset to a record, and
/// marked with the transaction of its producer where it is part of one. The next batch of the producer
/// has to follow it; nothing else of the producer changes, and nothing of any other.
pub proof fn new_batches_are_stored_as_sent(s: LogStateView, object_key: Seq<char>, batch: BatchDraftView, other: i64, q: PartitionKeyView)
    requires
        log_laws::logs_are_sound(s),
        log_append::fits(s, batch),
        log_append::batch_stored(s, object_key, batch) is Ok,
        log_append::batch_stored(s, object_key, batch)->Ok_0.2,
    ensures
        ({
            let (after, span, _) = log_append::batch_stored(s, object_key, batch)->Ok_0;
            let before = s.partitions[batch.partition];
            let log = after.partitions[batch.partition];
            &&& log.spans == before.spans.push(span)
            &&& log.next_offset == before.next_offset + batch.record_count
            &&& log.log_start_offset == before.log_start_offset
            &&& span.base_offset == before.next_offset
            &&& span.last_offset == before.next_offset + batch.record_count - 1
            &&& span.partition == batch.partition
            &&& span.object_key == object_key
            &&& span.byte_start == batch.byte_start
            &&& span.byte_end == batch.byte_end
            &&& span.record_count == batch.record_count
            &&& span.timestamp_ms == batch.timestamp_ms
            &&& span.integrity.checksum == batch.checksum
            &&& span.producer == batch.producer
            &&& !span.offsets_preserved
            &&& span.transaction_id == if batch.transactional_id is Some {
                s.producers[batch.producer->0.producer_id].current_transaction_id
            } else {
                None
            }
            &&& q != batch.partition ==> after.partitions.contains_key(q) == s.partitions.contains_key(q) && after.partitions[q] == s.partitions[q]
            &&& batch.producer is Some ==> last_number(after, batch.partition, batch.producer->0) == Some(batch.producer->0.last_sequence)
            &&& batch.producer is None || other != batch.producer->0.producer_id ==> after.producers.contains_key(other)
                == s.producers.contains_key(other) && after.producers[other] == s.producers[other]
            &&& after.transactions == s.transactions && after.offsets == s.offsets && after.topics == s.topics
        }),
{
    log_laws::batches_extend_their_log(s, object_key, batch);
    assert(log_laws::log_is_sound(batch.partition, s.partitions[batch.partition]));
}

/// Which objects are taken: one that holds batches, under a key that is neither stored nor claimed for
/// deletion. What it brings is stored with it, unless all of it was known before.
pub proof fn objects_are_taken_once(s: LogStateView, object: ObjectRefView, batches: Seq<BatchDraftView>)
    requires
        log_objects::committed(s, object, batches).1 is Ok,
    ensures
        ({
            let after = log_objects::committed(s, object, batches).0;
            &&& batches.len() > 0
            &&& !s.objects.contains_key(object.key)
            &&& !s.orphan_gc_claims.contains_key(object.key)
            &&& after.objects == s.objects.insert(object.key, object) || after.objects == s.objects
            &&& log_objects::committed(s, object, batches).1->Ok_0.len() == batches.len()
        }),
{
    objects_stay(s, object.key, batches, batches.len());
}

proof fn objects_stay(s: LogStateView, key: Seq<char>, batches: Seq<BatchDraftView>, n: nat)
    ensures
        log_append::batches_stored(s, key, batches, n) is Ok ==> log_append::batches_stored(s, key, batches, n)->Ok_0.state.objects == s.objects,
    decreases n,
{
    if n > 0 {
        objects_stay(s, key, batches, (n - 1) as nat);
    }
}

/// What a deletion of records does. It is refused just where there is no such log, or where the offset
/// is neither the mark for the end nor within the log. The log then starts at the offset, but not
/// behind the first record of an open transaction, and never before where it started. Spans that end
/// before the start are gone, and all others are there.
pub proof fn deletions_go_as_far_as_asked(s: LogStateView, p: PartitionKeyView, before_offset: i64, now_ms: i64, span: StoredSpanView)
    ensures
        ({
            let (after, answer) = log_retention::records_deleted(s, p, before_offset, now_ms);
            let log = s.partitions[p];
            let asked = if before_offset == -1 {
                log.next_offset
            } else {
                before_offset
            };
            let stable = log_reads::watermarks(s.transactions, log).last_stable_offset;
            &&& answer is Ok <==> s.partitions.contains_key(p) && 0 <= asked <= log.next_offset
            &&& answer is Err ==> after == s
            &&& answer is Ok ==> {
                let start = answer->Ok_0;
                &&& read_laws::is_stable_end(s, p, stable)
                &&& start >= log.log_start_offset
                &&& start == log.log_start_offset || start == asked || start == stable
                &&& start > log.log_start_offset ==> start <= asked && (start < asked ==> start == stable)
                &&& log.log_start_offset < asked && log.log_start_offset < stable ==> start > log.log_start_offset
                &&& (exists|i: int| 0 <= i < log.spans.len() && read_laws::is_under_way(s.transactions, #[trigger] log.spans[i])) && start
                    > log.log_start_offset ==> start <= stable
                &&& after.partitions[p].log_start_offset == start
                &&& after.partitions[p].next_offset == log.next_offset
                &&& after.partitions[p].spans.contains(span) <==> log.spans.contains(span) && span.last_offset >= start
            }
        }),
{
    let (after, answer) = log_retention::records_deleted(s, p, before_offset, now_ms);
    if answer is Ok {
        let log = s.partitions[p];
        read_laws::fetches_tell_the_bounds(s, p, 0, 0, crate::log_types::FetchIsolation::ReadUncommitted);
        log_laws::first_open_is_the_smallest(s.transactions, log.spans);
        reaching_spans_stay(log.spans, answer->Ok_0, span);
        if exists|i: int| 0 <= i < log.spans.len() && read_laws::is_under_way(s.transactions, #[trigger] log.spans[i]) {
            let i = choose|i: int| 0 <= i < log.spans.len() && read_laws::is_under_way(s.transactions, #[trigger] log.spans[i]);
            assert(log_reads::is_open(s.transactions, log.spans[i]));
        }
    }
}

proof fn reaching_spans_stay(spans: Seq<StoredSpanView>, start: i64, span: StoredSpanView)
    ensures
        log_retention::reaching(spans, start).contains(span) <==> spans.contains(span) && span.last_offset >= start,
    decreases spans.len(),
{
    if spans.len() > 0 {
        let rest = spans.drop_last();
        reaching_spans_stay(rest, start, span);
        let all = log_retention::reaching(spans, start);
        let before = log_retention::reaching(rest, start);
        assert(spans.contains(span) <==> rest.contains(span) || span == spans.last()) by {
            if rest.contains(span) {
                let i = choose|i: int| 0 <= i < rest.len() && rest[i] == span;
                assert(spans[i] == span);
            }
            if spans.contains(span) {
                let i = choose|i: int| 0 <= i < spans.len() && spans[i] == span;
                if i < rest.len() {
                    assert(rest[i] == span);
                }
            }
            assert(spans[spans.len() - 1] == spans.last());
        }
        if spans.last().last_offset >= start {
            assert(all.contains(span) <==> before.contains(span) || span == spans.last()) by {
                if before.contains(span) {
                    let i = choose|i: int| 0 <= i < before.len() && before[i] == span;
                    assert(all[i] == span);
                }
                assert(all[before.len() as int] == spans.last());
                if all.contains(span) {
                    let i = choose|i: int| 0 <= i < all.len() && all[i] == span;
                    if i < before.len() {
                        assert(before[i] == span);
                    }
                }
            }
        }
    }
}

/// Objects that lose their last record are kept for a while: whatever goes in a deletion of records, its
/// object is not to be deleted before the topic's delay is over, or a later time that was set before.
pub proof fn deleted_records_keep_their_objects_for_a_while(s: LogStateView, p: PartitionKeyView, before_offset: i64, now_ms: i64, i: int)
    requires
        log_retention::records_deleted(s, p, before_offset, now_ms).1 is Ok,
        0 <= i < s.partitions[p].spans.len(),
        s.partitions[p].spans[i].last_offset < log_retention::records_deleted(s, p, before_offset, now_ms).1->Ok_0,
    ensures
        ({
            let after = log_retention::records_deleted(s, p, before_offset, now_ms).0;
            let key = s.partitions[p].spans[i].object_key;
            let delay = if s.topic_configs.contains_key(p.topic) {
                s.topic_configs[p.topic].file_delete_delay_ms
            } else {
                s.default_config.file_delete_delay_ms
            };
            let at = numbers::clamped_i64(now_ms + if delay > 0 { delay as int } else { 0 });
            &&& after.object_delete_after.contains_key(key)
            &&& after.object_delete_after[key] >= at
            &&& after.object_delete_after[key] == at || (s.object_delete_after.contains_key(key) && after.object_delete_after[key]
                == s.object_delete_after[key])
        }),
{
    let start = log_retention::records_deleted(s, p, before_offset, now_ms).1->Ok_0;
    let spans = s.partitions[p].spans;
    let gone = log_retention::ending_before(spans, start);
    ended_spans_go(spans, start, i);
    let j = choose|j: int| 0 <= j < gone.len() && gone[j] == spans[i];
    assert(log_objects::log_refers_to(gone, spans[i].object_key));
}

proof fn ended_spans_go(spans: Seq<StoredSpanView>, start: i64, i: int)
    requires
        0 <= i < spans.len(),
        spans[i].last_offset < start,
    ensures
        log_retention::ending_before(spans, start).contains(spans[i]),
    decreases spans.len(),
{
    let all = log_retention::ending_before(spans, start);
    let before = log_retention::ending_before(spans.drop_last(), start);
    if i < spans.len() - 1 {
        assert(spans.drop_last()[i] == spans[i]);
        ended_spans_go(spans.drop_last(), start, i);
        let j = choose|j: int| 0 <= j < before.len() && before[j] == spans[i];
        assert(all[j] == spans[i]);
    } else {
        assert(all[before.len() as int] == spans[i]);
    }
}

/// Whether some producer has an open transaction.
pub open spec fn has_open_transaction(transactions: Map<u128, MemoryTransactionView>, producer_id: i64) -> bool {
    exists|id: u128| #[trigger]
        transactions.contains_key(id) && transactions[id].status == TransactionStatus::Ongoing && transactions[id].producer.producer_id
            == producer_id
}

proof fn kept_ids_stay(s: LogStateView, entries: Seq<((i64, i64), Seq<char>)>, now_ms: i64, id: Seq<char>)
    ensures
        ({
            let after = producer_expiry::given_up(s, entries, now_ms);
            let listed = exists|i: int| 0 <= i < entries.len() && (#[trigger] entries[i]).1 == id;
            &&& after.transactional_producers.contains_key(id) <==> s.transactional_producers.contains_key(id) && !listed
            &&& after.transactional_producers.contains_key(id) ==> after.transactional_producers[id] == s.transactional_producers[id]
            &&& after.transactions == s.transactions
            &&& after.partitions == s.partitions
            &&& after.offsets == s.offsets
        }),
    decreases entries.len(),
{
    if entries.len() > 0 {
        let rest = entries.drop_last();
        kept_ids_stay(s, rest, now_ms, id);
        assert(entries[entries.len() - 1] == entries.last());
        if exists|i: int| 0 <= i < rest.len() && (#[trigger] rest[i]).1 == id {
            let i = choose|i: int| 0 <= i < rest.len() && (#[trigger] rest[i]).1 == id;
            assert(entries[i].1 == id);
        }
        if exists|i: int| 0 <= i < entries.len() && (#[trigger] entries[i]).1 == id {
            let i = choose|i: int| 0 <= i < entries.len() && (#[trigger] entries[i]).1 == id;
            if i < rest.len() {
                assert(rest[i].1 == id);
            }
        }
    }
}

/// Which transactional ids are given up: one that has not been used for the time asked for, and whose
/// producer has no open transaction, and no other. A pass takes at most as many as it may, and as long
/// as it took fewer, every such id is gone. The time must be positive.
pub proof fn idle_ids_are_given_up(s: LogStateView, now_ms: i64, expiration_ms: i64, limit: nat, id: Seq<char>)
    requires
        s.transactional_producers.dom().finite(),
        s.transactional_producers.dom().len() <= u64::MAX,
        s.transactional_producers.contains_key(id),
    ensures
        ({
            let (after, answer) = producer_expiry::ids_expired(s, now_ms, expiration_ms, limit);
            let producer_id = s.transactional_producers[id];
            let idle = s.producers[producer_id].last_transaction_update_ms <= numbers::clamped_i64(now_ms - expiration_ms)
                && !has_open_transaction(s.transactions, producer_id);
            &&& answer is Err <==> expiration_ms <= 0
            &&& answer is Err ==> after == s
            &&& !idle ==> after.transactional_producers.contains_key(id) && after.transactional_producers[id] == producer_id
            &&& answer is Ok ==> answer->Ok_0 <= limit
            &&& answer is Ok && answer->Ok_0 < limit && idle ==> !after.transactional_producers.contains_key(id)
            &&& after.transactions == s.transactions && after.partitions == s.partitions && after.offsets == s.offsets
        }),
{
    if expiration_ms > 0 {
        let cutoff_ms = numbers::clamped_i64(now_ms - expiration_ms) as i64;
        let idle = producer_expiry::idle_ids(s, cutoff_ms);
        let name = |entry: ((i64, i64), Seq<char>)| entry.1;
        idle_entries_are_finite(s, cutoff_ms);
        sorted_map::finite_sets_are_listed::<((i64, i64), String)>(idle);
        let all = sorted_map::sorted_keys::<((i64, i64), String)>(idle);
        sorted_map::strictly_sorted_unique::<((i64, i64), String)>(all);
        let entries = producer_expiry::first_of(all, limit);
        kept_ids_stay(s, entries, now_ms, id);
        let producer_id = s.transactional_producers[id];
        let mine = ((s.producers[producer_id].last_transaction_update_ms, producer_id), id);
        assert(producer_expiry::is_busy(s.transactions, producer_id) <==> has_open_transaction(s.transactions, producer_id)) by {
            if producer_expiry::is_busy(s.transactions, producer_id) {
                let t = choose|t: u128| #[trigger]
                    s.transactions.contains_key(t) && s.transactions[t].producer.producer_id == producer_id && s.transactions[t].status
                        == TransactionStatus::Ongoing;
                assert(s.transactions.contains_key(t));
            }
            if has_open_transaction(s.transactions, producer_id) {
                let t = choose|t: u128| #[trigger]
                    s.transactions.contains_key(t) && s.transactions[t].status == TransactionStatus::Ongoing
                        && s.transactions[t].producer.producer_id == producer_id;
                assert(s.transactions.contains_key(t));
            }
        }
        if exists|i: int| 0 <= i < entries.len() && (#[trigger] entries[i]).1 == id {
            let i = choose|i: int| 0 <= i < entries.len() && (#[trigger] entries[i]).1 == id;
            assert(all[i] == entries[i]);
            assert(all.to_set().contains(all[i]));
        }
        if idle.contains(mine) && entries.len() < limit {
            assert(all.to_set().contains(mine));
            let i = choose|i: int| 0 <= i < all.len() && all[i] == mine;
            assert(entries =~= all);
            assert(entries[i].1 == id);
        }
    }
}

proof fn idle_entries_are_finite(s: LogStateView, cutoff_ms: i64)
    requires
        s.transactional_producers.dom().finite(),
    ensures
        producer_expiry::idle_ids(s, cutoff_ms).finite(),
        producer_expiry::idle_ids(s, cutoff_ms).len() <= s.transactional_producers.dom().len(),
{
    let idle = producer_expiry::idle_ids(s, cutoff_ms);
    let ids = s.transactional_producers.dom();
    let entry = |id: Seq<char>|
        {
            let producer_id = s.transactional_producers[id];
            ((s.producers[producer_id].last_transaction_update_ms, producer_id), id)
        };
    ids.lemma_map_finite(entry);
    assert forall|e: ((i64, i64), Seq<char>)| #[trigger] idle.contains(e) implies ids.map(entry).contains(e) by {
        assert(ids.contains(e.1));
        assert(entry(e.1) == e);
    }
    vstd::set_lib::lemma_len_subset(idle, ids.map(entry));
    vstd::set_lib::lemma_map_size_bound(ids, ids.map(entry), entry);
}

proof fn kept_sequences_stay(producers: Map<i64, MemoryProducerView>, entries: Seq<((i64, i64), PartitionKeyView)>, id: i64, p: PartitionKeyView)
    requires
        forall|i: int| 0 <= i < entries.len() ==> producers.contains_key((#[trigger] entries[i]).0.1),
    ensures
        ({
            let after = producer_expiry::forgotten(producers, entries);
            let listed = exists|i: int| 0 <= i < entries.len() && (#[trigger] entries[i]).0.1 == id && entries[i].1 == p;
            &&& after.dom() == producers.dom()
            &&& producers.contains_key(id) ==> {
                &&& after[id].epoch == producers[id].epoch
                &&& after[id].transactional_id == producers[id].transactional_id
                &&& after[id].sequences.contains_key(p) <==> producers[id].sequences.contains_key(p) && !listed
                &&& after[id].sequences.contains_key(p) ==> after[id].sequences[p] == producers[id].sequences[p]
            }
        }),
    decreases entries.len(),
{
    if entries.len() > 0 {
        let rest = entries.drop_last();
        assert forall|i: int| 0 <= i < rest.len() implies producers.contains_key((#[trigger] rest[i]).0.1) by {
            assert(entries[i] == rest[i]);
        }
        kept_sequences_stay(producers, rest, id, p);
        assert(entries[entries.len() - 1] == entries.last());
        assert(producer_expiry::forgotten(producers, entries).dom() =~= producers.dom());
        if exists|i: int| 0 <= i < rest.len() && (#[trigger] rest[i]).0.1 == id && rest[i].1 == p {
            let i = choose|i: int| 0 <= i < rest.len() && (#[trigger] rest[i]).0.1 == id && rest[i].1 == p;
            assert(entries[i].0.1 == id);
        }
        if exists|i: int| 0 <= i < entries.len() && (#[trigger] entries[i]).0.1 == id && entries[i].1 == p {
            let i = choose|i: int| 0 <= i < entries.len() && (#[trigger] entries[i]).0.1 == id && entries[i].1 == p;
            if i < rest.len() {
                assert(rest[i].0.1 == id);
            }
        }
    }
}

/// Whether a producer has written to a log in a transaction that is open.
pub open spec fn writes_in_open_transaction(s: LogStateView, p: PartitionKeyView, producer_id: i64) -> bool {
    let spans = s.partitions[p].spans;
    s.partitions.contains_key(p) && exists|i: int|
        0 <= i < spans.len() && read_laws::is_under_way(s.transactions, #[trigger] spans[i]) && spans[i].producer is Some
            && spans[i].producer->0.producer_id == producer_id
}

/// What partitions forget of producers: what a producer wrote last is forgotten where it was written so
/// long ago and not in a transaction that is open, and nowhere else. No epoch changes. A pass takes at
/// most as many as it may.
pub proof fn idle_sequences_are_forgotten(s: LogStateView, now_ms: i64, expiration_ms: i64, limit: nat, id: i64, p: PartitionKeyView)
    requires
        producer_expiry::idle_sequences(s, numbers::clamped_i64(now_ms - expiration_ms) as i64).finite(),
        producer_expiry::idle_sequences(s, numbers::clamped_i64(now_ms - expiration_ms) as i64).len() <= u64::MAX,
        s.producers.contains_key(id),
        s.producers[id].sequences.contains_key(p),
    ensures
        ({
            let (after, answer) = producer_expiry::sequences_expired(s, now_ms, expiration_ms, limit);
            let idle = s.producers[id].sequences[p].last_timestamp <= numbers::clamped_i64(now_ms - expiration_ms)
                && !writes_in_open_transaction(s, p, id);
            &&& answer is Err <==> expiration_ms <= 0
            &&& answer is Err ==> after == s
            &&& after.producers.contains_key(id) && after.producers[id].epoch == s.producers[id].epoch
            &&& !idle ==> after.producers[id].sequences.contains_key(p) && after.producers[id].sequences[p] == s.producers[id].sequences[p]
            &&& answer is Ok ==> answer->Ok_0 <= limit
            &&& answer is Ok && answer->Ok_0 < limit && idle ==> !after.producers[id].sequences.contains_key(p)
            &&& after.transactions == s.transactions && after.partitions == s.partitions && after.offsets == s.offsets
        }),
{
    if expiration_ms > 0 {
        let cutoff_ms = numbers::clamped_i64(now_ms - expiration_ms) as i64;
        let idle = producer_expiry::idle_sequences(s, cutoff_ms);
        sorted_map::finite_sets_are_listed::<((i64, i64), PartitionKey)>(idle);
        let all = sorted_map::sorted_keys::<((i64, i64), PartitionKey)>(idle);
        sorted_map::strictly_sorted_unique::<((i64, i64), PartitionKey)>(all);
        let entries = producer_expiry::first_of(all, limit);
        assert forall|i: int| 0 <= i < entries.len() implies s.producers.contains_key((#[trigger] entries[i]).0.1) && idle.contains(entries[i]) by {
            assert(all[i] == entries[i]);
            assert(all.to_set().contains(all[i]));
        }
        kept_sequences_stay(s.producers, entries, id, p);
        let mine = ((s.producers[id].sequences[p].last_timestamp, id), p);
        assert(producer_expiry::is_pending(s, p, id) <==> writes_in_open_transaction(s, p, id)) by {
            let spans = s.partitions[p].spans;
            if producer_expiry::is_pending(s, p, id) {
                let i = choose|i: int|
                    0 <= i < spans.len() && (#[trigger] spans[i]).producer is Some && spans[i].producer->0.producer_id == id && log_reads::is_open(
                        s.transactions,
                        spans[i],
                    );
                assert(read_laws::is_under_way(s.transactions, spans[i]));
            }
            if writes_in_open_transaction(s, p, id) {
                let i = choose|i: int|
                    0 <= i < spans.len() && read_laws::is_under_way(s.transactions, #[trigger] spans[i]) && spans[i].producer is Some
                        && spans[i].producer->0.producer_id == id;
                assert(log_reads::is_open(s.transactions, spans[i]) && spans[i].producer is Some);
            }
        }
        if idle.contains(mine) && entries.len() < limit {
            assert(all.to_set().contains(mine));
            let i = choose|i: int| 0 <= i < all.len() && all[i] == mine;
            assert(entries =~= all);
            assert(entries[i].0.1 == id && entries[i].1 == p);
        }
    }
}

/// Which announced objects are claimed for deletion: those that were announced no later than asked for,
/// and those that were claimed before; at most so many, but one at the least; and those first that were
/// touched longest ago.
pub proof fn old_announcements_are_claimed(s: LogStateView, before_ms: i64, limit: i64, key: Seq<char>, i: int)
    requires
        s.staged_objects.dom().finite(),
    ensures
        ({
            let keys = log_objects::claimable(s, before_ms, limit);
            let old = s.staged_objects.contains_key(key) && (s.staged_objects[key] <= before_ms || s.orphan_gc_claims.contains_key(key));
            let most = if limit > 1 {
                limit as int
            } else {
                1
            };
            &&& keys.len() <= most
            &&& keys.contains(key) ==> old
            &&& old && keys.len() < most ==> keys.contains(key)
            &&& old && !keys.contains(key) && 0 <= i < keys.len() ==> when_touched(s, keys[i]) <= when_touched(s, key)
        }),
{
    let stale = log_objects::stale(s, before_ms);
    let names = s.staged_objects.dom();
    let entry = |k: Seq<char>| (log_objects::touched_at(s, k), k);
    names.lemma_map_finite(entry);
    assert forall|e: (i64, Seq<char>)| #[trigger] stale.contains(e) implies names.map(entry).contains(e) by {
        assert(names.contains(e.1));
        assert(entry(e.1) == e);
    }
    vstd::set_lib::lemma_len_subset(stale, names.map(entry));
    sorted_map::finite_sets_are_listed::<(i64, String)>(stale);
    let order = sorted_map::sorted_keys::<(i64, String)>(stale);
    let keys = log_objects::claimable(s, before_ms, limit);
    let mine = (log_objects::touched_at(s, key), key);
    if keys.contains(key) {
        let k = choose|k: int| 0 <= k < keys.len() && keys[k] == key;
        assert(order.to_set().contains(order[k]));
    }
    if stale.contains(mine) {
        assert(order.to_set().contains(mine));
        let k = choose|k: int| 0 <= k < order.len() && order[k] == mine;
        if k < keys.len() {
            assert(keys[k] == key);
        } else if 0 <= i < keys.len() {
            assert(<(i64, String) as SortKey>::before(order[i], order[k]));
            assert(order.to_set().contains(order[i]));
        }
    }
}

/// When an announced object was last touched.
pub open spec fn when_touched(s: LogStateView, key: Seq<char>) -> int {
    if s.orphan_gc_claims.contains_key(key) {
        s.orphan_gc_claims[key] as int
    } else {
        s.staged_objects[key] as int
    }
}

} // verus!
