//! Appending batches to the logs of partitions.

use crate::error;
use crate::error::{ControlError, ControlErrorView};
use crate::log_types::{
    BatchDraft, BatchDraftView, LogState, LogStateView, MemoryPartitionView, MemoryProducerSequence,
    MemoryProducerSequenceView, MemoryProducerView, ObjectRef, ObjectRefView, ProducerBatch, ProducerSession,
    SpanIntegrity, SpanIntegrityView, StoredSpan, StoredSpanView, TransactionStatus,
};
use crate::partition::{PartitionKey, PartitionKeyView};
use crate::sorted_map;
use crate::sorted_map::{Duplicate, SortedMap};
use crate::text;
use crate::text::{append_decimal, join_three, same_text};
use vstd::prelude::*;

verus! {

/// How many batches of a producer are remembered to recognise repetitions.
pub const PRODUCER_BATCH_HISTORY_LIMIT: usize = 5;

/// The sequence number `increment` steps on: after the last one comes zero.
pub open spec fn sequence_after(sequence: int, increment: int) -> int {
    if sequence + increment > i32::MAX {
        sequence + increment - 0x8000_0000
    } else {
        sequence + increment
    }
}

pub fn increment_producer_sequence(sequence: i32, increment: i32) -> (r: i32)
    requires
        increment >= 0,
    ensures
        r == sequence_after(sequence as int, increment as int),
{
    if sequence > i32::MAX - increment {
        increment - (i32::MAX - sequence) - 1
    } else {
        sequence + increment
    }
}

impl SpanIntegrity {
    /// The integrity of a span whose checksum may be missing.
    pub fn from_checksum(checksum: Option<Vec<u8>>) -> (r: Self)
        ensures
            r.deep_view() == (SpanIntegrityView { checksum: checksum.deep_view() }),
    {
        SpanIntegrity { checksum }
    }

    /// The integrity of a span in the current format.
    pub fn current(checksum: Vec<u8>) -> (r: Self)
        ensures
            r.deep_view() == (SpanIntegrityView { checksum: Some(checksum.deep_view()) }),
    {
        SpanIntegrity { checksum: Some(checksum) }
    }
}

/// Batches name the partitions of their transaction unless they say otherwise.
pub fn verification_enabled_by_default() -> (r: bool)
    ensures
        r,
{
    true
}

/// Whether a batch holds records and its bytes do not end before they start.
pub open spec fn bounds_hold(batch: BatchDraftView) -> bool {
    batch.record_count > 0 && batch.byte_end >= batch.byte_start
}

pub fn validate_batch_bounds(batch: &BatchDraft) -> (r: Result<(), ControlError>)
    ensures
        error::outcome(r) == (if bounds_hold(batch.deep_view()) {
            Ok(())
        } else {
            Err(ControlErrorView::InvalidRequest("batch has invalid byte or record bounds"@))
        }),
{
    if batch.record_count <= 0 || batch.byte_end < batch.byte_start {
        return Err(ControlError::InvalidRequest("batch has invalid byte or record bounds".to_owned()));
    }
    Ok(())
}

/// What is said of a partition that is no part of the transaction.
pub open spec fn not_added_text(partition: PartitionKeyView) -> Seq<char> {
    "partition "@ + partition.topic + "-"@ + text::decimal_text(partition.partition as int)
        + " was not added to the active transaction"@
}

pub(crate) fn not_added_message(partition: &PartitionKey) -> (r: String)
    ensures
        r@ == not_added_text(partition.deep_view()),
{
    let mut r = join_three("partition ", partition.topic.as_str(), "-");
    append_decimal(&mut r, partition.partition as i64);
    r.append(" was not added to the active transaction");
    r
}

/// The transaction to which a batch belongs, or why it may not be written.
pub open spec fn batch_transaction(s: LogStateView, batch: BatchDraftView) -> Result<Option<u128>, ControlErrorView> {
    match batch.producer {
        None => if batch.transactional_id is Some {
            Err(ControlErrorView::InvalidTransactionState("transactional records require a producer id"@))
        } else {
            Ok(None)
        },
        Some(producer) => if !s.producers.contains_key(producer.producer_id) {
            Err(ControlErrorView::UnknownProducer(producer.producer_id))
        } else if s.producers[producer.producer_id].epoch != producer.producer_epoch {
            Err(
                ControlErrorView::ProducerFenced {
                    producer_id: producer.producer_id,
                    expected_epoch: s.producers[producer.producer_id].epoch,
                    actual_epoch: producer.producer_epoch,
                },
            )
        } else if batch.transactional_id != s.producers[producer.producer_id].transactional_id {
            Err(ControlErrorView::InvalidTransactionState("producer and transactional id do not match"@))
        } else if batch.transactional_id is None {
            Ok(None)
        } else {
            match s.producers[producer.producer_id].current_transaction_id {
                None => Err(ControlErrorView::InvalidTransactionState("transaction has not started"@)),
                Some(id) => if !s.transactions.contains_key(id) {
                    Err(ControlErrorView::InvalidTransactionState("transaction does not exist"@))
                } else if accepts(s, id, batch, producer) {
                    Ok(Some(id))
                } else {
                    Err(ControlErrorView::InvalidTransactionState(not_added_text(batch.partition)))
                },
            }
        },
    }
}

/// Whether an open transaction takes a batch of its own producer and, where that is asked for,
/// of a partition that was added to it.
pub open spec fn accepts(s: LogStateView, id: u128, batch: BatchDraftView, producer: ProducerBatch) -> bool {
    let transaction = s.transactions[id];
    &&& transaction.status == TransactionStatus::Ongoing
    &&& Some(transaction.transactional_id) == batch.transactional_id
    &&& transaction.producer == (ProducerSession { producer_id: producer.producer_id, producer_epoch: producer.producer_epoch })
    &&& batch.verify_transaction_partition ==> transaction.partitions.contains_key(batch.partition)
}

fn validate_memory_produce(state: &LogState, batch: &BatchDraft) -> (r: Result<Option<u128>, ControlError>)
    ensures
        error::outcome(r) == batch_transaction(state.deep_view(), batch.deep_view()),
{
    let producer: ProducerBatch = match batch.producer {
        Some(producer) => producer,
        None => {
            if batch.transactional_id.is_some() {
                return Err(ControlError::InvalidTransactionState("transactional records require a producer id".to_owned()));
            }
            return Ok(None);
        },
    };
    let stored = match state.producers.get(&producer.producer_id) {
        Some(stored) => stored,
        None => return Err(ControlError::UnknownProducer(producer.producer_id)),
    };
    if stored.epoch != producer.producer_epoch {
        return Err(
            ControlError::ProducerFenced {
                producer_id: producer.producer_id,
                expected_epoch: stored.epoch,
                actual_epoch: producer.producer_epoch,
            },
        );
    }
    let requested: &String = match (&batch.transactional_id, &stored.transactional_id) {
        (None, None) => return Ok(None),
        (Some(requested), Some(owned)) => {
            if !same_text(requested.as_str(), owned.as_str()) {
                return Err(ControlError::InvalidTransactionState("producer and transactional id do not match".to_owned()));
            }
            requested
        },
        _ => return Err(ControlError::InvalidTransactionState("producer and transactional id do not match".to_owned())),
    };
    let id: u128 = match stored.current_transaction_id {
        Some(id) => id,
        None => return Err(ControlError::InvalidTransactionState("transaction has not started".to_owned())),
    };
    let transaction = match state.transactions.get(&id) {
        Some(transaction) => transaction,
        None => return Err(ControlError::InvalidTransactionState("transaction does not exist".to_owned())),
    };
    let session = ProducerSession { producer_id: producer.producer_id, producer_epoch: producer.producer_epoch };
    if transaction.status != TransactionStatus::Ongoing || !same_text(transaction.transactional_id.as_str(), requested.as_str())
        || transaction.producer != session || (batch.verify_transaction_partition && !transaction.partitions.contains_key(
        &batch.partition,
    )) {
        return Err(ControlError::InvalidTransactionState(not_added_message(&batch.partition)));
    }
    Ok(Some(id))
}

/// Whether a span was written by a producer under an epoch, at `floor` or after it.
pub open spec fn written_by(span: StoredSpanView, floor: i64, producer_id: i64, epoch: i16) -> bool {
    &&& span.base_offset >= floor
    &&& span.producer is Some
    &&& span.producer->0.producer_id == producer_id
    &&& span.producer->0.producer_epoch == epoch
}

/// The last `limit` spans that a producer wrote under an epoch, the newest first.
pub open spec fn recent(spans: Seq<StoredSpanView>, floor: i64, producer_id: i64, epoch: i16, limit: nat) -> Seq<StoredSpanView>
    decreases spans.len(),
{
    if spans.len() == 0 || limit == 0 {
        Seq::empty()
    } else if written_by(spans.last(), floor, producer_id, epoch) {
        seq![spans.last()] + recent(spans.drop_last(), floor, producer_id, epoch, (limit - 1) as nat)
    } else {
        recent(spans.drop_last(), floor, producer_id, epoch, limit)
    }
}

fn is_written_by(span: &StoredSpan, floor: i64, producer_id: i64, epoch: i16) -> (r: bool)
    ensures
        r == written_by(span.deep_view(), floor, producer_id, epoch),
{
    match span.producer {
        Some(batch) => span.base_offset >= floor && batch.producer_id == producer_id && batch.producer_epoch == epoch,
        None => false,
    }
}

/// The last few spans that a producer wrote under an epoch, the newest first.
pub(crate) fn recent_spans(spans: &Vec<StoredSpan>, floor: i64, producer_id: i64, epoch: i16) -> (r: Vec<StoredSpan>)
    ensures
        r.deep_view() == recent(spans.deep_view(), floor, producer_id, epoch, PRODUCER_BATCH_HISTORY_LIMIT as nat),
{
    let mut r: Vec<StoredSpan> = Vec::new();
    let mut i: usize = spans.len();
    let ghost all = spans.deep_view();
    let ghost want = recent(all, floor, producer_id, epoch, PRODUCER_BATCH_HISTORY_LIMIT as nat);
    assert(all.take(i as int) =~= all);
    assert(r.deep_view() =~= Seq::<StoredSpanView>::empty());
    assert(want =~= r.deep_view() + want);
    while i > 0 && r.len() < PRODUCER_BATCH_HISTORY_LIMIT
        invariant
            i <= spans@.len(),
            r@.len() <= PRODUCER_BATCH_HISTORY_LIMIT,
            all == spans.deep_view(),
            want == recent(all, floor, producer_id, epoch, PRODUCER_BATCH_HISTORY_LIMIT as nat),
            want == r.deep_view() + recent(all.take(i as int), floor, producer_id, epoch, (PRODUCER_BATCH_HISTORY_LIMIT - r@.len()) as nat),
        decreases i,
    {
        i = i - 1;
        let ghost before = r.deep_view();
        let ghost part = all.take(i + 1);
        assert(part.drop_last() =~= all.take(i as int));
        assert(part.last() == spans@[i as int].deep_view());
        if is_written_by(&spans[i], floor, producer_id, epoch) {
            r.push(spans[i].duplicate());
            assert(r.deep_view() =~= before.push(part.last()));
            assert(before + (seq![part.last()] + recent(all.take(i as int), floor, producer_id, epoch, (PRODUCER_BATCH_HISTORY_LIMIT - r@.len()) as nat)) =~= r.deep_view() + recent(all.take(i as int), floor, producer_id, epoch, (PRODUCER_BATCH_HISTORY_LIMIT - r@.len()) as nat));
        }
    }
    assert(r.deep_view() + Seq::<StoredSpanView>::empty() =~= r.deep_view());
    r
}

/// The first of some spans that holds exactly these sequence numbers.
pub open spec fn with_sequences(spans: Seq<StoredSpanView>, first: i32, last: i32) -> Option<StoredSpanView>
    decreases spans.len(),
{
    if spans.len() == 0 {
        None
    } else if spans[0].producer is Some && spans[0].producer->0.first_sequence == first && spans[0].producer->0.last_sequence == last {
        Some(spans[0])
    } else {
        with_sequences(spans.drop_first(), first, last)
    }
}

fn find_sequences(spans: &Vec<StoredSpan>, first: i32, last: i32) -> (r: Option<StoredSpan>)
    ensures
        r.deep_view() == with_sequences(spans.deep_view(), first, last),
{
    let ghost all = spans.deep_view();
    let mut i: usize = 0;
    assert(all.skip(0) =~= all);
    while i < spans.len()
        invariant
            i <= spans@.len(),
            all == spans.deep_view(),
            with_sequences(all, first, last) == with_sequences(all.skip(i as int), first, last),
        decreases spans@.len() - i,
    {
        assert(all.skip(i as int)[0] == spans@[i as int].deep_view());
        assert(all.skip(i as int).drop_first() =~= all.skip(i + 1));
        if let Some(batch) = spans[i].producer {
            if batch.first_sequence == first && batch.last_sequence == last {
                return Some(spans[i].duplicate());
            }
        }
        i = i + 1;
    }
    None
}

/// The smallest base offset of some spans.
pub open spec fn oldest(spans: Seq<StoredSpanView>) -> Option<i64>
    decreases spans.len(),
{
    if spans.len() == 0 {
        None
    } else {
        match oldest(spans.drop_last()) {
            None => Some(spans.last().base_offset),
            Some(base) => Some(if spans.last().base_offset < base { spans.last().base_offset } else { base }),
        }
    }
}

pub(crate) fn oldest_base(spans: &Vec<StoredSpan>) -> (r: Option<i64>)
    ensures
        r == oldest(spans.deep_view()),
{
    let ghost all = spans.deep_view();
    let mut r: Option<i64> = None;
    let mut i: usize = 0;
    assert(all.take(0) =~= Seq::empty());
    while i < spans.len()
        invariant
            i <= spans@.len(),
            all == spans.deep_view(),
            r == oldest(all.take(i as int)),
        decreases spans@.len() - i,
    {
        assert(all.take(i + 1).drop_last() =~= all.take(i as int));
        assert(all.take(i + 1).last() == spans@[i as int].deep_view());
        let base: i64 = spans[i].base_offset;
        r = match r {
            None => Some(base),
            Some(least) => Some(if base < least { base } else { least }),
        };
        i = i + 1;
    }
    assert(all.take(i as int) =~= all);
    r
}

/// Why a batch does not follow the last one of its producer. A producer without a last one starts
/// at zero where the store could have told it so.
pub open spec fn sequence_refusal(
    partition: PartitionKeyView,
    producer: ProducerBatch,
    last_sequence: Option<i32>,
    starts_at_zero: bool,
) -> Option<ControlErrorView> {
    let expected = match last_sequence {
        Some(last) => sequence_after(last as int, 1),
        None => if starts_at_zero {
            0
        } else {
            producer.first_sequence as int
        },
    };
    if producer.first_sequence == expected {
        None
    } else {
        Some(
            ControlErrorView::OutOfOrderSequence {
                producer_id: producer.producer_id,
                partition,
                expected: expected as i32,
                actual: producer.first_sequence,
            },
        )
    }
}

/// Checks that a batch follows the last one of its producer.
pub fn validate_sequence(
    partition: &PartitionKey,
    producer: ProducerBatch,
    last_sequence: Option<i32>,
    starts_at_zero: bool,
) -> (r: Result<(), ControlError>)
    ensures
        error::outcome(r) == (match sequence_refusal(partition.deep_view(), producer, last_sequence, starts_at_zero) {
            Some(refusal) => Err(refusal),
            None => Ok(()),
        }),
{
    let expected: i32 = match last_sequence {
        Some(last) => increment_producer_sequence(last, 1),
        None => if starts_at_zero {
            0
        } else {
            producer.first_sequence
        },
    };
    if producer.first_sequence != expected {
        return Err(
            ControlError::OutOfOrderSequence {
                producer_id: producer.producer_id,
                partition: partition.duplicate(),
                expected,
                actual: producer.first_sequence,
            },
        );
    }
    Ok(())
}

/// What is to be done with a batch.
pub enum Verdict {
    /// The batch was stored before, as this span.
    Repeated(StoredSpanView),
    /// The batch is new.
    Append { transaction_id: Option<u128>, history_floor: Option<i64> },
}

/// What a partition remembers of a producer under its present epoch.
pub open spec fn sequence_of(s: LogStateView, partition: PartitionKeyView, producer: ProducerBatch) -> Option<MemoryProducerSequenceView> {
    let sequences = s.producers[producer.producer_id].sequences;
    if sequences.contains_key(partition) && sequences[partition].epoch == producer.producer_epoch {
        Some(sequences[partition])
    } else {
        None
    }
}

/// The span as which a repeated batch was stored.
pub open spec fn repeated(s: LogStateView, partition: PartitionKeyView, producer: ProducerBatch) -> Option<StoredSpanView> {
    match sequence_of(s, partition, producer) {
        None => None,
        Some(sequence) => with_sequences(
            recent(
                s.partitions[partition].spans,
                sequence.history_start_offset,
                producer.producer_id,
                producer.producer_epoch,
                PRODUCER_BATCH_HISTORY_LIMIT as nat,
            ),
            producer.first_sequence,
            producer.last_sequence,
        ),
    }
}

/// What is to be done with a batch, or why it is refused.
pub open spec fn judged(s: LogStateView, batch: BatchDraftView) -> Result<Verdict, ControlErrorView> {
    let partition = batch.partition;
    if !bounds_hold(batch) {
        Err(ControlErrorView::InvalidRequest("batch has invalid byte or record bounds"@))
    } else {
        match batch_transaction(s, batch) {
            Err(refusal) => Err(refusal),
            Ok(transaction_id) => if !s.partitions.contains_key(partition) {
                Err(ControlErrorView::PartitionNotFound { topic: partition.topic, partition: partition.partition })
            } else {
                match batch.producer {
                    None => Ok(Verdict::Append { transaction_id, history_floor: None }),
                    Some(producer) => match repeated(s, partition, producer) {
                        Some(span) => Ok(Verdict::Repeated(span)),
                        None => {
                            let sequence = sequence_of(s, partition, producer);
                            let last = match sequence {
                                Some(sequence) => Some(sequence.last_sequence),
                                None => None,
                            };
                            let floor = match sequence {
                                Some(sequence) => Some(sequence.history_start_offset),
                                None => None,
                            };
                            let starts_at_zero = s.producers[producer.producer_id].two_phase_commit && batch.transactional_id is Some;
                            match sequence_refusal(partition, producer, last, starts_at_zero) {
                                Some(refusal) => Err(refusal),
                                None => Ok(Verdict::Append { transaction_id, history_floor: floor }),
                            }
                        },
                    },
                }
            },
        }
    }
}

/// A batch as a span whose first record has the offset `base`.
pub open spec fn new_span(batch: BatchDraftView, object_key: Seq<char>, base: i64, transaction_id: Option<u128>) -> StoredSpanView {
    StoredSpanView {
        partition: batch.partition,
        object_key,
        byte_start: batch.byte_start,
        byte_end: batch.byte_end,
        base_offset: base,
        last_offset: (base + batch.record_count - 1) as i64,
        record_count: batch.record_count,
        timestamp_ms: batch.timestamp_ms,
        integrity: SpanIntegrityView { checksum: batch.checksum },
        producer: batch.producer,
        transaction_id,
        offsets_preserved: false,
    }
}

/// The offset from which on a producer's spans count as recent, once its newest is stored.
pub open spec fn history_start(spans: Seq<StoredSpanView>, producer: ProducerBatch, floor: Option<i64>, base: i64) -> i64 {
    match floor {
        None => base,
        Some(floor) => match oldest(
            recent(spans, floor, producer.producer_id, producer.producer_epoch, PRODUCER_BATCH_HISTORY_LIMIT as nat),
        ) {
            None => base,
            Some(start) => start,
        },
    }
}

/// The state after a new batch has been stored.
pub open spec fn appended(
    s: LogStateView,
    object_key: Seq<char>,
    batch: BatchDraftView,
    transaction_id: Option<u128>,
    history_floor: Option<i64>,
) -> LogStateView {
    let log = s.partitions[batch.partition];
    let spans = log.spans.push(new_span(batch, object_key, log.next_offset, transaction_id));
    let partitions = s.partitions.insert(
        batch.partition,
        MemoryPartitionView { next_offset: (log.next_offset + batch.record_count) as i64, spans, ..log },
    );
    match batch.producer {
        None => LogStateView { partitions, ..s },
        Some(producer) => {
            let stored = s.producers[producer.producer_id];
            let sequence = MemoryProducerSequenceView {
                epoch: producer.producer_epoch,
                last_sequence: producer.last_sequence,
                last_timestamp: batch.timestamp_ms,
                history_start_offset: history_start(spans, producer, history_floor, log.next_offset),
            };
            LogStateView {
                partitions,
                producers: s.producers.insert(
                    producer.producer_id,
                    MemoryProducerView { sequences: stored.sequences.insert(batch.partition, sequence), ..stored },
                ),
                ..s
            }
        },
    }
}

/// The state after a batch, the span that answers it, and whether the span is new.
pub open spec fn batch_stored(s: LogStateView, object_key: Seq<char>, batch: BatchDraftView) -> Result<
    (LogStateView, StoredSpanView, bool),
    ControlErrorView,
> {
    match judged(s, batch) {
        Err(refusal) => Err(refusal),
        Ok(Verdict::Repeated(span)) => Ok((s, span, false)),
        Ok(Verdict::Append { transaction_id, history_floor }) => Ok(
            (
                appended(s, object_key, batch, transaction_id, history_floor),
                new_span(batch, object_key, s.partitions[batch.partition].next_offset, transaction_id),
                true,
            ),
        ),
    }
}

/// The records that a batch brings to a partition.
pub open spec fn brought(batch: BatchDraftView, p: PartitionKeyView) -> int {
    if batch.partition == p && batch.record_count > 0 {
        batch.record_count as int
    } else {
        0
    }
}

/// Whether a batch's partition does not run out of offsets when it is given the batch.
pub open spec fn fits(s: LogStateView, batch: BatchDraftView) -> bool {
    s.partitions.contains_key(batch.partition) ==> s.partitions[batch.partition].next_offset + brought(batch, batch.partition) <= i64::MAX
}

/// Stores a batch, or finds the span as which it was stored before.
fn store_batch(state: &mut LogState, object_key: &str, batch: &BatchDraft) -> (r: Result<(StoredSpan, bool), ControlError>)
    requires
        fits(old(state).deep_view(), batch.deep_view()),
    ensures
        match batch_stored(old(state).deep_view(), object_key@, batch.deep_view()) {
            Ok((after, span, fresh)) => final(state).deep_view() == after && r is Ok && r->Ok_0.0.deep_view() == span && r->Ok_0.1 == fresh,
            Err(refusal) => final(state).deep_view() == old(state).deep_view() && r is Err && r->Err_0.deep_view() == refusal,
        },
{
    let ghost s = state.deep_view();
    let ghost b = batch.deep_view();
    let ghost p = batch.partition.deep_view();
    validate_batch_bounds(batch)?;
    let transaction_id: Option<u128> = validate_memory_produce(state, batch)?;
    let mut history_floor: Option<i64> = None;
    if !state.partitions.contains_key(&batch.partition) {
        return Err(
            ControlError::PartitionNotFound { topic: batch.partition.topic.clone(), partition: batch.partition.partition },
        );
    }
    if let Some(producer) = batch.producer {
        let stored = state.producers.get(&producer.producer_id).unwrap();
        let mut last_sequence: Option<i32> = None;
        if let Some(sequence) = stored.sequences.get(&batch.partition) {
            if sequence.epoch == producer.producer_epoch {
                last_sequence = Some(sequence.last_sequence);
                history_floor = Some(sequence.history_start_offset);
                let log = state.partitions.get(&batch.partition).unwrap();
                let latest = recent_spans(&log.spans, sequence.history_start_offset, producer.producer_id, producer.producer_epoch);
                if let Some(span) = find_sequences(&latest, producer.first_sequence, producer.last_sequence) {
                    return Ok((span, false));
                }
            }
        }
        let starts_at_zero = stored.two_phase_commit && batch.transactional_id.is_some();
        validate_sequence(&batch.partition, producer, last_sequence, starts_at_zero)?;
    }
    assert(judged(s, b) == Ok::<Verdict, ControlErrorView>(Verdict::Append { transaction_id, history_floor }));
    let mut log = state.partitions.remove(&batch.partition).unwrap();
    let base: i64 = log.next_offset;
    let last: i64 = base + (batch.record_count as i64 - 1);
    let span = StoredSpan {
        partition: batch.partition.duplicate(),
        object_key: object_key.to_owned(),
        byte_start: batch.byte_start,
        byte_end: batch.byte_end,
        base_offset: base,
        last_offset: last,
        record_count: batch.record_count,
        timestamp_ms: batch.timestamp_ms,
        integrity: SpanIntegrity::from_checksum(batch.checksum.duplicate()),
        producer: batch.producer,
        transaction_id,
        offsets_preserved: false,
    };
    log.next_offset = last + 1;
    let ghost spans = log.spans.deep_view();
    log.spans.push(span.duplicate());
    assert(log.spans.deep_view() =~= spans.push(span.deep_view()));
    if let Some(producer) = batch.producer {
        let history_start_offset: i64 = match history_floor {
            None => base,
            Some(floor) => {
                let latest = recent_spans(&log.spans, floor, producer.producer_id, producer.producer_epoch);
                match oldest_base(&latest) {
                    None => base,
                    Some(start) => start,
                }
            },
        };
        let mut stored = state.producers.remove(&producer.producer_id).unwrap();
        stored.sequences.insert(
            batch.partition.duplicate(),
            MemoryProducerSequence {
                epoch: producer.producer_epoch,
                last_sequence: producer.last_sequence,
                last_timestamp: batch.timestamp_ms,
                history_start_offset,
            },
        );
        let ghost stored_after = stored.deep_view();
        state.producers.insert(producer.producer_id, stored);
        assert(s.producers.remove(producer.producer_id).insert(producer.producer_id, stored_after) =~= s.producers.insert(producer.producer_id, stored_after));
    }
    let ghost log_after = log.deep_view();
    state.partitions.insert(batch.partition.duplicate(), log);
    assert(s.partitions.remove(p).insert(p, log_after) =~= s.partitions.insert(p, log_after));
    Ok((span, true))
}

/// The places of some batches, each with its partition.
pub open spec fn places(batches: Seq<BatchDraftView>) -> Set<(PartitionKeyView, usize)> {
    Set::new(|place: (PartitionKeyView, usize)| place.1 < batches.len() && batches[place.1 as int].partition == place.0)
}

/// The order in which batches are stored: by partition, then as they were given.
pub open spec fn storage_order(batches: Seq<BatchDraftView>) -> Seq<(PartitionKeyView, usize)> {
    sorted_map::sorted_keys::<(PartitionKey, usize)>(places(batches))
}

/// The places of some batches in the order in which the batches are stored.
pub fn order_batches(batches: &Vec<BatchDraft>) -> (r: Vec<(PartitionKey, usize)>)
    ensures
        r.deep_view() == storage_order(batches.deep_view()),
        sorted_map::lists_in_order::<(PartitionKey, usize)>(r.deep_view(), places(batches.deep_view())),
{
    let ghost all = batches.deep_view();
    let mut order: SortedMap<(PartitionKey, usize), ()> = SortedMap::new();
    let mut i: usize = 0;
    while i < batches.len()
        invariant
            i <= batches@.len(),
            all == batches.deep_view(),
            forall|place: (PartitionKeyView, usize)| #[trigger] order.deep_view().contains_key(place) == (places(all).contains(place) && place.1 < i),
        decreases batches@.len() - i,
    {
        order.insert((batches[i].partition.duplicate(), i), ());
        i = i + 1;
    }
    assert(order.deep_view().dom() =~= places(all));
    order.keys()
}

/// What has become of the batches of an object.
pub struct StoredBatches {
    pub state: LogStateView,
    pub spans: Map<usize, StoredSpanView>,
    pub object_used: bool,
}

/// What has become of the first `n` batches, in the order in which they are stored.
pub open spec fn batches_stored(s: LogStateView, object_key: Seq<char>, batches: Seq<BatchDraftView>, n: nat) -> Result<
    StoredBatches,
    ControlErrorView,
>
    decreases n,
{
    if n == 0 {
        Ok(StoredBatches { state: s, spans: Map::empty(), object_used: false })
    } else {
        let place = storage_order(batches)[n - 1].1;
        match batches_stored(s, object_key, batches, (n - 1) as nat) {
            Err(refusal) => Err(refusal),
            Ok(before) => match batch_stored(before.state, object_key, batches[place as int]) {
                Err(refusal) => Err(refusal),
                Ok((state, span, fresh)) => Ok(
                    StoredBatches { state, spans: before.spans.insert(place, span), object_used: before.object_used || fresh },
                ),
            },
        }
    }
}

/// What is said of an object that is stored already.
pub open spec fn already_committed_text(key: Seq<char>) -> Seq<char> {
    "object "@ + key + " is already committed"@
}

/// The state after an object has been stored with its batches, and the span of each batch.
pub open spec fn object_stored(s: LogStateView, object: ObjectRefView, batches: Seq<BatchDraftView>) -> Result<
    (LogStateView, Seq<StoredSpanView>),
    ControlErrorView,
> {
    if batches.len() == 0 {
        Err(ControlErrorView::InvalidRequest("an object must contain at least one batch"@))
    } else if s.objects.contains_key(object.key) {
        Err(ControlErrorView::InvalidRequest(already_committed_text(object.key)))
    } else {
        match batches_stored(s, object.key, batches, batches.len()) {
            Err(refusal) => Err(refusal),
            Ok(stored) => {
                let state = stored.state;
                let spans = Seq::new(batches.len(), |i: int| stored.spans[i as usize]);
                if stored.object_used {
                    Ok(
                        (
                            LogStateView {
                                unreferenced_objects: state.unreferenced_objects.remove(object.key),
                                object_delete_after: state.object_delete_after.remove(object.key),
                                objects: state.objects.insert(object.key, object),
                                ..state
                            },
                            spans,
                        ),
                    )
                } else {
                    Ok((state, spans))
                }
            },
        }
    }
}

/// The records that batches bring to a partition, from place `n` on in the order in which they are
/// stored.
pub open spec fn brought_from(batches: Seq<BatchDraftView>, n: nat, p: PartitionKeyView) -> int
    decreases storage_order(batches).len() - n,
{
    let order = storage_order(batches);
    if n >= order.len() {
        0
    } else {
        brought(batches[order[n as int].1 as int], p) + brought_from(batches, n + 1, p)
    }
}

/// Whether no partition runs out of offsets when it is given batches from place `n` on.
pub open spec fn has_room(s: LogStateView, batches: Seq<BatchDraftView>, n: nat) -> bool {
    forall|p: PartitionKeyView| #[trigger] s.partitions.contains_key(p) ==> s.partitions[p].next_offset + brought_from(batches, n, p) <= i64::MAX
}

proof fn batches_take_nothing(batches: Seq<BatchDraftView>, n: nat, p: PartitionKeyView)
    ensures
        brought_from(batches, n, p) >= 0,
    decreases storage_order(batches).len() - n,
{
    if n < storage_order(batches).len() {
        batches_take_nothing(batches, n + 1, p);
    }
}

/// Where there is room for batches, the first of them fits.
pub proof fn first_batch_fits(s: LogStateView, batches: Seq<BatchDraftView>, n: nat)
    requires
        has_room(s, batches, n),
        n < storage_order(batches).len(),
    ensures
        fits(s, batches[storage_order(batches)[n as int].1 as int]),
{
    batches_take_nothing(batches, n + 1, batches[storage_order(batches)[n as int].1 as int].partition);
}

/// There are as many places as batches.
pub proof fn every_batch_has_a_place(batches: Seq<BatchDraftView>)
    requires
        batches.len() <= usize::MAX,
        sorted_map::lists_in_order::<(PartitionKey, usize)>(storage_order(batches), places(batches)),
    ensures
        storage_order(batches).len() == batches.len(),
{
    let order = storage_order(batches);
    sorted_map::strictly_sorted_unique::<(PartitionKey, usize)>(order);
    let listed = Seq::new(batches.len(), |i: int| (batches[i].partition, i as usize));
    assert(listed.no_duplicates());
    listed.unique_seq_to_set();
    assert forall|place: (PartitionKeyView, usize)| listed.to_set().contains(place) == places(batches).contains(place) by {
        if places(batches).contains(place) {
            assert(listed[place.1 as int] == place);
        }
    }
    assert(listed.to_set() =~= places(batches));
}

/// A batch leaves room for the next ones.
pub proof fn room_after_batch(s: LogStateView, object_key: Seq<char>, batches: Seq<BatchDraftView>, n: nat)
    requires
        has_room(s, batches, n),
        n < storage_order(batches).len(),
        batch_stored(s, object_key, batches[storage_order(batches)[n as int].1 as int]) is Ok,
    ensures
        has_room(batch_stored(s, object_key, batches[storage_order(batches)[n as int].1 as int])->Ok_0.0, batches, n + 1),
{
    let batch = batches[storage_order(batches)[n as int].1 as int];
    let after = batch_stored(s, object_key, batch)->Ok_0.0;
    first_batch_fits(s, batches, n);
    assert forall|p: PartitionKeyView| #[trigger] after.partitions.contains_key(p) implies after.partitions[p].next_offset + brought_from(
        batches,
        n + 1,
        p,
    ) <= i64::MAX by {
        assert(s.partitions.contains_key(p));
    }
}

/// The state and the spans once an object is stored, or why it is refused.
pub fn commit_memory_object(state: &LogState, object: ObjectRef, batches: Vec<BatchDraft>) -> (r: Result<
    (LogState, Vec<StoredSpan>),
    ControlError,
>)
    requires
        has_room(state.deep_view(), batches.deep_view(), 0),
    ensures
        error::outcome(r) == object_stored(state.deep_view(), object.deep_view(), batches.deep_view()),
{
    let ghost s = state.deep_view();
    let ghost all = batches.deep_view();
    let ghost key = object.key@;
    if batches.len() == 0 {
        return Err(ControlError::InvalidRequest("an object must contain at least one batch".to_owned()));
    }
    if state.objects.contains_key(&object.key) {
        return Err(ControlError::InvalidRequest(join_three("object ", object.key.as_str(), " is already committed")));
    }
    let order = order_batches(&batches);
    let ghost placed = order.deep_view();
    proof {
        every_batch_has_a_place(all);
    }
    let mut staged = state.duplicate();
    let mut spans: SortedMap<usize, StoredSpan> = SortedMap::new();
    let mut object_used = false;
    let mut n: usize = 0;
    while n < order.len()
        invariant
            n <= order@.len(),
            order@.len() == batches@.len(),
            placed == order.deep_view(),
            placed == storage_order(all),
            placed.to_set() == places(all),
            all == batches.deep_view(),
            key == object.key@,
            s == state.deep_view(),
            all.len() > 0,
            !s.objects.contains_key(key),
            batches_stored(s, key, all, n as nat) == Ok::<StoredBatches, ControlErrorView>(
                StoredBatches { state: staged.deep_view(), spans: spans.deep_view(), object_used },
            ),
            has_room(staged.deep_view(), all, n as nat),
            forall|i: int| 0 <= i < n ==> spans.deep_view().contains_key((#[trigger] placed[i]).1),
        decreases order@.len() - n,
    {
        let place: usize = order[n].1;
        assert(placed[n as int] == order@[n as int].deep_view());
        assert(placed.to_set().contains(placed[n as int]));
        assert(places(all).contains(placed[n as int]));
        let ghost before = staged.deep_view();
        proof {
            first_batch_fits(before, all, n as nat);
        }
        let stored = store_batch(&mut staged, object.key.as_str(), &batches[place]);
        match stored {
            Err(refusal) => {
                proof {
                    refused_early(s, key, all, (n + 1) as nat, order@.len() as nat);
                }
                return Err(refusal);
            },
            Ok((span, fresh)) => {
                proof {
                    room_after_batch(before, key, all, n as nat);
                }
                spans.insert(place, span);
                object_used = object_used || fresh;
            },
        }
        n = n + 1;
    }
    let mut r: Vec<StoredSpan> = Vec::new();
    let mut i: usize = 0;
    while i < batches.len()
        invariant
            i <= batches@.len(),
            all == batches.deep_view(),
            r@.len() == i,
            n == placed.len(),
            placed.to_set() == places(all),
            forall|j: int| 0 <= j < n ==> spans.deep_view().contains_key((#[trigger] placed[j]).1),
            forall|j: int| 0 <= j < i ==> (#[trigger] r@[j]).deep_view() == spans.deep_view()[j as usize],
        decreases batches@.len() - i,
    {
        proof {
            let place = (all[i as int].partition, i);
            assert(places(all).contains(place));
            assert(placed.to_set().contains(place));
            let j = choose|j: int| 0 <= j < placed.len() && placed[j] == place;
            assert(spans.deep_view().contains_key(placed[j].1));
        }
        r.push(spans.get(&i).unwrap().duplicate());
        i = i + 1;
    }
    assert(r.deep_view() =~= Seq::new(all.len(), |i: int| spans.deep_view()[i as usize]));
    if object_used {
        staged.unreferenced_objects.remove(&object.key);
        staged.object_delete_after.remove(&object.key);
        staged.objects.insert(object.key.clone(), object);
    }
    Ok((staged, r))
}

/// Once a batch is refused, the object is.
proof fn refused_early(s: LogStateView, object_key: Seq<char>, batches: Seq<BatchDraftView>, n: nat, m: nat)
    requires
        n <= m,
        batches_stored(s, object_key, batches, n) is Err,
    ensures
        batches_stored(s, object_key, batches, m) == batches_stored(s, object_key, batches, n),
    decreases m,
{
    if n < m {
        refused_early(s, object_key, batches, n, (m - 1) as nat);
    }
}

} // verus!
