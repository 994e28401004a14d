//! Storing an object where partitions, producers and spans are rows of a database: which row is to be
//! read next, and what follows from the rows that were read.

use crate::error;
use crate::error::{ControlError, ControlErrorView};
use crate::log_append;
use crate::log_append::{
    not_added_message, order_batches, validate_batch_bounds, validate_sequence, PRODUCER_BATCH_HISTORY_LIMIT,
};
use crate::log_objects;
use crate::log_types::{
    BatchDraft, BatchDraftView, LogStateView, ProducerBatch, ProducerSession, SpanIntegrity, StoredSpan,
    StoredSpanView, TransactionStatus,
};
use crate::partition::PartitionKey;
use crate::sorted_map;
use crate::sorted_map::{Duplicate, SortedMap};
use crate::text::same_text;
use vstd::prelude::*;

verus! {

/// The row of a partition.
#[derive(Debug, Clone, Copy, PartialEq, Eq, Structural)]
pub struct PartitionRow {
    pub next_offset: i64,
    pub topic_id: u128,
}

impl DeepView for PartitionRow {
    type V = PartitionRow;

    open spec fn deep_view(&self) -> PartitionRow {
        *self
    }
}

impl Duplicate for PartitionRow {
    fn duplicate(&self) -> (r: Self) {
        *self
    }
}

/// The row of a producer.
#[derive(Debug, Clone, PartialEq, Eq)]
pub struct ProducerRow {
    pub epoch: i16,
    pub transactional_id: Option<String>,
    pub current_transaction_id: Option<u128>,
    pub two_phase_commit: bool,
}

/// The model of [`ProducerRow`].
pub struct ProducerRowView {
    pub epoch: i16,
    pub transactional_id: Option<Seq<char>>,
    pub current_transaction_id: Option<u128>,
    pub two_phase_commit: bool,
}

impl DeepView for ProducerRow {
    type V = ProducerRowView;

    open spec fn deep_view(&self) -> ProducerRowView {
        ProducerRowView {
            epoch: self.epoch,
            transactional_id: self.transactional_id.deep_view(),
            current_transaction_id: self.current_transaction_id.deep_view(),
            two_phase_commit: self.two_phase_commit,
        }
    }
}

impl Duplicate for ProducerRow {
    fn duplicate(&self) -> (r: Self) {
        ProducerRow {
            epoch: self.epoch,
            transactional_id: self.transactional_id.duplicate(),
            current_transaction_id: self.current_transaction_id.duplicate(),
            two_phase_commit: self.two_phase_commit,
        }
    }
}

/// The row of a transaction of the batch's own producer and epoch: whether it is open, and whether the
/// partition of the batch was added to it.
#[derive(Debug, Clone, Copy, PartialEq, Eq, Structural)]
pub struct TransactionRow {
    pub ongoing: bool,
    pub partition_added: bool,
}

impl DeepView for TransactionRow {
    type V = TransactionRow;

    open spec fn deep_view(&self) -> TransactionRow {
        *self
    }
}

impl Duplicate for TransactionRow {
    fn duplicate(&self) -> (r: Self) {
        *self
    }
}

/// The row of what a partition remembers of a producer.
#[derive(Debug, Clone, Copy, PartialEq, Eq, Structural)]
pub struct SequenceRow {
    pub epoch: i16,
    pub last_sequence: i32,
    pub history_start_offset: i64,
}

impl DeepView for SequenceRow {
    type V = SequenceRow;

    open spec fn deep_view(&self) -> SequenceRow {
        *self
    }
}

impl Duplicate for SequenceRow {
    fn duplicate(&self) -> (r: Self) {
        *self
    }
}

/// The rows that have been read for a batch: nothing where a row was not asked for yet, and nothing
/// inside where there is no such row. The span of a repeated batch is looked for among the last few
/// spans of its producer.
#[derive(Debug, Clone, PartialEq, Eq)]
pub struct BatchAnswers {
    pub partition: Option<Option<PartitionRow>>,
    pub producer: Option<Option<ProducerRow>>,
    pub transaction: Option<Option<TransactionRow>>,
    pub sequence: Option<Option<SequenceRow>>,
    pub duplicate: Option<Option<StoredSpan>>,
}

/// The model of [`BatchAnswers`].
pub struct BatchAnswersView {
    pub partition: Option<Option<PartitionRow>>,
    pub producer: Option<Option<ProducerRowView>>,
    pub transaction: Option<Option<TransactionRow>>,
    pub sequence: Option<Option<SequenceRow>>,
    pub duplicate: Option<Option<StoredSpanView>>,
}

impl DeepView for BatchAnswers {
    type V = BatchAnswersView;

    open spec fn deep_view(&self) -> BatchAnswersView {
        BatchAnswersView {
            partition: self.partition.deep_view(),
            producer: self.producer.deep_view(),
            transaction: self.transaction.deep_view(),
            sequence: self.sequence.deep_view(),
            duplicate: self.duplicate.deep_view(),
        }
    }
}

impl BatchAnswers {
    /// No row has been read.
    pub fn new() -> (r: Self)
        ensures
            r.deep_view() == (BatchAnswersView { partition: None, producer: None, transaction: None, sequence: None, duplicate: None }),
    {
        BatchAnswers { partition: None, producer: None, transaction: None, sequence: None, duplicate: None }
    }
}

/// What is to be written for a new batch: its span, the offset behind it, and the offset from which on
/// the producer's earlier spans counted as recent.
#[derive(Debug, Clone, PartialEq, Eq)]
pub struct NewBatch {
    pub span: StoredSpan,
    pub next_offset: i64,
    pub history_floor: Option<i64>,
}

/// The model of [`NewBatch`].
pub struct NewBatchView {
    pub span: StoredSpanView,
    pub next_offset: i64,
    pub history_floor: Option<i64>,
}

impl DeepView for NewBatch {
    type V = NewBatchView;

    open spec fn deep_view(&self) -> NewBatchView {
        NewBatchView {
            span: self.span.deep_view(),
            next_offset: self.next_offset,
            history_floor: self.history_floor.deep_view(),
        }
    }
}

/// What is to be done next for a batch.
#[derive(Debug, Clone, PartialEq, Eq)]
pub enum Step {
    /// Read the partition.
    ReadPartition,
    /// Read the producer.
    ReadProducer,
    /// Read this transaction.
    ReadTransaction(u128),
    /// Read what the partition remembers of the producer.
    ReadSequence,
    /// Look for the batch among the producer's last spans from this offset on.
    ReadDuplicate(i64),
    /// The batch was stored before: answer with this span.
    Answer(StoredSpan),
    /// The batch is new: write it.
    Append(NewBatch),
}

/// The model of [`Step`].
pub enum StepView {
    ReadPartition,
    ReadProducer,
    ReadTransaction(u128),
    ReadSequence,
    ReadDuplicate(i64),
    Answer(StoredSpanView),
    Append(NewBatchView),
}

impl DeepView for Step {
    type V = StepView;

    open spec fn deep_view(&self) -> StepView {
        match self {
            Step::ReadPartition => StepView::ReadPartition,
            Step::ReadProducer => StepView::ReadProducer,
            Step::ReadTransaction(id) => StepView::ReadTransaction(*id),
            Step::ReadSequence => StepView::ReadSequence,
            Step::ReadDuplicate(floor) => StepView::ReadDuplicate(*floor),
            Step::Answer(span) => StepView::Answer(span.deep_view()),
            Step::Append(batch) => StepView::Append(batch.deep_view()),
        }
    }
}

/// What the rows say of the transaction of a batch.
pub enum Standing {
    /// One more row has to be read.
    Ask(StepView),
    /// The batch may be written, as part of this transaction.
    Settled(Option<u128>),
}

/// What the rows say of the transaction of a batch, or why the batch may not be written.
pub open spec fn standing(batch: BatchDraftView, answers: BatchAnswersView) -> Result<Standing, ControlErrorView> {
    match batch.producer {
        None => if batch.transactional_id is Some {
            Err(ControlErrorView::InvalidTransactionState("transactional records require a producer id"@))
        } else {
            Ok(Standing::Settled(None))
        },
        Some(producer) => match answers.producer {
            None => Ok(Standing::Ask(StepView::ReadProducer)),
            Some(None) => Err(ControlErrorView::UnknownProducer(producer.producer_id)),
            Some(Some(row)) => if row.epoch != producer.producer_epoch {
                Err(
                    ControlErrorView::ProducerFenced {
                        producer_id: producer.producer_id,
                        expected_epoch: row.epoch,
                        actual_epoch: producer.producer_epoch,
                    },
                )
            } else if batch.transactional_id != row.transactional_id {
                Err(ControlErrorView::InvalidTransactionState("producer and transactional id do not match"@))
            } else if batch.transactional_id is None {
                Ok(Standing::Settled(None))
            } else {
                match row.current_transaction_id {
                    None => Err(ControlErrorView::InvalidTransactionState("transaction has not started"@)),
                    Some(id) => match answers.transaction {
                        None => Ok(Standing::Ask(StepView::ReadTransaction(id))),
                        Some(None) => Err(ControlErrorView::InvalidTransactionState("active transaction does not match producer"@)),
                        Some(Some(row)) => if !row.ongoing || (batch.verify_transaction_partition && !row.partition_added) {
                            Err(ControlErrorView::InvalidTransactionState(log_append::not_added_text(batch.partition)))
                        } else {
                            Ok(Standing::Settled(Some(id)))
                        },
                    },
                }
            },
        },
    }
}

/// The row of a producer's sequence, if it is of the producer's present epoch.
pub open spec fn present(row: Option<SequenceRow>, producer: ProducerBatch) -> Option<SequenceRow> {
    match row {
        Some(sequence) if sequence.epoch == producer.producer_epoch => Some(sequence),
        _ => None,
    }
}

/// The writing of a new batch.
pub open spec fn append_step(
    object_key: Seq<char>,
    batch: BatchDraftView,
    row: PartitionRow,
    transaction_id: Option<u128>,
    history_floor: Option<i64>,
) -> StepView {
    StepView::Append(
        NewBatchView {
            span: log_append::new_span(batch, object_key, row.next_offset, transaction_id),
            next_offset: (row.next_offset + batch.record_count) as i64,
            history_floor,
        },
    )
}

/// What is to be done next for a batch, or why it is refused.
pub open spec fn step(object_key: Seq<char>, batch: BatchDraftView, answers: BatchAnswersView) -> Result<StepView, ControlErrorView> {
    match answers.partition {
        None => Ok(StepView::ReadPartition),
        Some(None) => Err(ControlErrorView::PartitionNotFound { topic: batch.partition.topic, partition: batch.partition.partition }),
        Some(Some(row)) => match standing(batch, answers) {
            Err(refusal) => Err(refusal),
            Ok(Standing::Ask(step)) => Ok(step),
            Ok(Standing::Settled(transaction_id)) => match (batch.producer, answers.sequence) {
                (None, _) => Ok(append_step(object_key, batch, row, transaction_id, None)),
                (Some(_), None) => Ok(StepView::ReadSequence),
                (Some(producer), Some(sequence)) => match present(sequence, producer) {
                    None => {
                        let starts_at_zero = (answers.producer->0)->0.two_phase_commit && batch.transactional_id is Some;
                        match log_append::sequence_refusal(batch.partition, producer, None, starts_at_zero) {
                            Some(refusal) => Err(refusal),
                            None => Ok(append_step(object_key, batch, row, transaction_id, None)),
                        }
                    },
                    Some(sequence) => match answers.duplicate {
                        None => Ok(StepView::ReadDuplicate(sequence.history_start_offset)),
                        Some(Some(span)) => Ok(
                            StepView::Answer(StoredSpanView { partition: batch.partition, producer: batch.producer, ..span }),
                        ),
                        Some(None) => match log_append::sequence_refusal(
                            batch.partition,
                            producer,
                            Some(sequence.last_sequence),
                            false,
                        ) {
                            Some(refusal) => Err(refusal),
                            None => Ok(append_step(object_key, batch, row, transaction_id, Some(sequence.history_start_offset))),
                        },
                    },
                },
            },
        },
    }
}

/// Whether there are offsets left behind those of a partition for a batch.
pub open spec fn has_offsets(batch: BatchDraftView, answers: BatchAnswersView) -> bool {
    answers.partition matches Some(Some(row)) ==> row.next_offset + batch.record_count <= i64::MAX
}

fn find_standing(batch: &BatchDraft, answers: &BatchAnswers) -> (r: Result<Result<Option<u128>, Step>, ControlError>)
    ensures
        match r {
            Err(refusal) => standing(batch.deep_view(), answers.deep_view()) == Err::<Standing, ControlErrorView>(refusal.deep_view()),
            Ok(Err(step)) => standing(batch.deep_view(), answers.deep_view()) == Ok::<Standing, ControlErrorView>(
                Standing::Ask(step.deep_view()),
            ),
            Ok(Ok(id)) => standing(batch.deep_view(), answers.deep_view()) == Ok::<Standing, ControlErrorView>(Standing::Settled(id)),
        },
{
    let producer: ProducerBatch = match batch.producer {
        None => {
            if batch.transactional_id.is_some() {
                return Err(ControlError::InvalidTransactionState("transactional records require a producer id".to_owned()));
            }
            return Ok(Ok(None));
        },
        Some(producer) => producer,
    };
    let row = match &answers.producer {
        None => return Ok(Err(Step::ReadProducer)),
        Some(None) => return Err(ControlError::UnknownProducer(producer.producer_id)),
        Some(Some(row)) => row,
    };
    if row.epoch != producer.producer_epoch {
        return Err(
            ControlError::ProducerFenced {
                producer_id: producer.producer_id,
                expected_epoch: row.epoch,
                actual_epoch: producer.producer_epoch,
            },
        );
    }
    match (&batch.transactional_id, &row.transactional_id) {
        (None, None) => return Ok(Ok(None)),
        (Some(requested), Some(owned)) => {
            if !same_text(requested.as_str(), owned.as_str()) {
                return Err(ControlError::InvalidTransactionState("producer and transactional id do not match".to_owned()));
            }
        },
        _ => return Err(ControlError::InvalidTransactionState("producer and transactional id do not match".to_owned())),
    }
    let id: u128 = match row.current_transaction_id {
        None => return Err(ControlError::InvalidTransactionState("transaction has not started".to_owned())),
        Some(id) => id,
    };
    match answers.transaction {
        None => Ok(Err(Step::ReadTransaction(id))),
        Some(None) => Err(ControlError::InvalidTransactionState("active transaction does not match producer".to_owned())),
        Some(Some(row)) => {
            if !row.ongoing || (batch.verify_transaction_partition && !row.partition_added) {
                return Err(ControlError::InvalidTransactionState(not_added_message(&batch.partition)));
            }
            Ok(Ok(Some(id)))
        },
    }
}

fn write_step(object_key: &str, batch: &BatchDraft, row: PartitionRow, transaction_id: Option<u128>, history_floor: Option<i64>) -> (r: Step)
    requires
        log_append::bounds_hold(batch.deep_view()),
        row.next_offset + batch.record_count <= i64::MAX,
    ensures
        r.deep_view() == append_step(object_key@, batch.deep_view(), row, transaction_id, history_floor),
{
    let last_offset: i64 = row.next_offset + (batch.record_count as i64 - 1);
    Step::Append(
        NewBatch {
            span: StoredSpan {
                partition: batch.partition.duplicate(),
                object_key: object_key.to_owned(),
                byte_start: batch.byte_start,
                byte_end: batch.byte_end,
                base_offset: row.next_offset,
                last_offset,
                record_count: batch.record_count,
                timestamp_ms: batch.timestamp_ms,
                integrity: SpanIntegrity::from_checksum(batch.checksum.duplicate()),
                producer: batch.producer,
                transaction_id,
                offsets_preserved: false,
            },
            next_offset: last_offset + 1,
            history_floor,
        },
    )
}

/// Decides what is to be done next for a batch.
pub fn next_step(object_key: &str, batch: &BatchDraft, answers: &BatchAnswers) -> (r: Result<Step, ControlError>)
    requires
        log_append::bounds_hold(batch.deep_view()),
        has_offsets(batch.deep_view(), answers.deep_view()),
    ensures
        error::outcome(r) == step(object_key@, batch.deep_view(), answers.deep_view()),
{
    let row: PartitionRow = match answers.partition {
        None => return Ok(Step::ReadPartition),
        Some(None) => return Err(
            ControlError::PartitionNotFound { topic: batch.partition.topic.clone(), partition: batch.partition.partition },
        ),
        Some(Some(row)) => row,
    };
    assert(answers.deep_view().partition == Some(Some(row)));
    let transaction_id: Option<u128> = match find_standing(batch, answers)? {
        Err(step) => return Ok(step),
        Ok(id) => id,
    };
    let producer: ProducerBatch = match batch.producer {
        None => return Ok(write_step(object_key, batch, row, transaction_id, None)),
        Some(producer) => producer,
    };
    let sequence: Option<SequenceRow> = match answers.sequence {
        None => return Ok(Step::ReadSequence),
        Some(sequence) => sequence,
    };
    assert(answers.deep_view().sequence == Some(sequence));
    if let Some(sequence) = sequence {
        if sequence.epoch == producer.producer_epoch {
            match &answers.duplicate {
                None => return Ok(Step::ReadDuplicate(sequence.history_start_offset)),
                Some(Some(span)) => {
                    let mut span = span.duplicate();
                    span.partition = batch.partition.duplicate();
                    span.producer = batch.producer;
                    return Ok(Step::Answer(span));
                },
                Some(None) => {
                    validate_sequence(&batch.partition, producer, Some(sequence.last_sequence), false)?;
                    return Ok(write_step(object_key, batch, row, transaction_id, Some(sequence.history_start_offset)));
                },
            }
        }
    }
    let two_phase_commit = match &answers.producer {
        Some(Some(row)) => row.two_phase_commit,
        _ => false,
    };
    validate_sequence(&batch.partition, producer, None, two_phase_commit && batch.transactional_id.is_some())?;
    Ok(write_step(object_key, batch, row, transaction_id, None))
}

/// How the row of a new span says whether readers of committed records may see it.
pub fn initial_transaction_state(transaction_id: Option<u128>) -> (r: &'static str)
    ensures
        r@ == (if transaction_id is Some {
            "pending"@
        } else {
            "visible"@
        }),
{
    if transaction_id.is_some() {
        "pending"
    } else {
        "visible"
    }
}

/// The offset from which on a producer's spans count as recent, given the offset that counted before
/// and the smallest of its last few spans from there on.
pub fn next_history_start(history_floor: Option<i64>, smallest: Option<i64>, base_offset: i64) -> (r: i64)
    ensures
        r == (match (history_floor, smallest) {
            (Some(_), Some(start)) => start,
            _ => base_offset,
        }),
{
    match (history_floor, smallest) {
        (Some(_), Some(start)) => start,
        _ => base_offset,
    }
}

/// The order in which the batches of an object are stored, and the producers whose rows are locked
/// before, in order.
pub struct CommitPlan {
    pub order: Vec<(PartitionKey, usize)>,
    pub producer_ids: Vec<i64>,
}

/// The producers of some batches.
pub open spec fn producers_of(batches: Seq<BatchDraftView>) -> Set<i64> {
    Set::new(|id: i64| exists|i: int| 0 <= i < batches.len() && (#[trigger] batches[i]).producer is Some && batches[i].producer->0.producer_id == id)
}

/// Whether every batch holds records and has bytes that do not end before they start.
pub open spec fn all_bounds_hold(batches: Seq<BatchDraftView>) -> bool {
    forall|i: int| 0 <= i < batches.len() ==> log_append::bounds_hold(#[trigger] batches[i])
}

/// Checks the batches of an object before any row is read.
pub fn plan_commit(batches: &Vec<BatchDraft>) -> (r: Result<CommitPlan, ControlError>)
    ensures
        match r {
            Ok(plan) => batches@.len() > 0 && all_bounds_hold(batches.deep_view()) && plan.order.deep_view() == log_append::storage_order(
                batches.deep_view(),
            ) && plan.producer_ids.deep_view() == sorted_map::sorted_keys::<i64>(producers_of(batches.deep_view())),
            Err(refusal) => (batches@.len() == 0 || !all_bounds_hold(batches.deep_view())) && refusal.deep_view()
                == ControlErrorView::InvalidRequest(
                if batches@.len() == 0 {
                    "an object must contain at least one batch"@
                } else {
                    "batch has invalid byte or record bounds"@
                },
            ),
        },
{
    let ghost all = batches.deep_view();
    if batches.len() == 0 {
        return Err(ControlError::InvalidRequest("an object must contain at least one batch".to_owned()));
    }
    let mut ids: SortedMap<i64, ()> = SortedMap::new();
    let mut i: usize = 0;
    while i < batches.len()
        invariant
            i <= batches@.len(),
            batches@.len() > 0,
            all == batches.deep_view(),
            forall|j: int| 0 <= j < i ==> log_append::bounds_hold(#[trigger] all[j]),
            forall|id: i64| #[trigger] ids.deep_view().contains_key(id) <==> producers_of(all.take(i as int)).contains(id),
        decreases batches@.len() - i,
    {
        let ghost shorter = all.take(i as int);
        let ghost longer = all.take(i + 1);
        proof {
            assert(all[i as int] == batches@[i as int].deep_view());
            sorted_map::prefix_grows(all, i as int);
            assert forall|id: i64| producers_of(longer).contains(id) <==> producers_of(shorter).contains(id) || (all[i as int].producer is Some
                && all[i as int].producer->0.producer_id == id) by {
                if producers_of(shorter).contains(id) {
                    let j = choose|j: int|
                        0 <= j < shorter.len() && (#[trigger] shorter[j]).producer is Some && shorter[j].producer->0.producer_id == id;
                    assert(longer[j] == shorter[j]);
                }
                if producers_of(longer).contains(id) {
                    let j = choose|j: int|
                        0 <= j < longer.len() && (#[trigger] longer[j]).producer is Some && longer[j].producer->0.producer_id == id;
                    if j < i {
                        assert(longer[j] == shorter[j]);
                    }
                }
                assert(longer[i as int] == all[i as int]);
            }
        }
        validate_batch_bounds(&batches[i])?;
        if let Some(producer) = batches[i].producer {
            ids.insert(producer.producer_id, ());
        }
        i = i + 1;
    }
    proof {
        assert(all.take(i as int) =~= all);
        assert(ids.deep_view().dom() =~= producers_of(all));
    }
    let producer_ids = ids.keys();
    proof {
        sorted_map::sorted_keys_are::<i64>(producer_ids.deep_view(), producers_of(all));
    }
    Ok(CommitPlan { order: order_batches(batches), producer_ids })
}

/// The rows that stand for what a log state holds.
pub open spec fn rows_of(s: LogStateView, batch: BatchDraftView, topic_id: u128) -> BatchAnswersView {
    let p = batch.partition;
    let known = batch.producer is Some && s.producers.contains_key(batch.producer->0.producer_id);
    let stored = s.producers[batch.producer->0.producer_id];
    let session = ProducerSession { producer_id: batch.producer->0.producer_id, producer_epoch: batch.producer->0.producer_epoch };
    BatchAnswersView {
        partition: Some(
            if s.partitions.contains_key(p) {
                Some(PartitionRow { next_offset: s.partitions[p].next_offset, topic_id })
            } else {
                None
            },
        ),
        producer: Some(
            if known {
                Some(
                    ProducerRowView {
                        epoch: stored.epoch,
                        transactional_id: stored.transactional_id,
                        current_transaction_id: stored.current_transaction_id,
                        two_phase_commit: stored.two_phase_commit,
                    },
                )
            } else {
                None
            },
        ),
        transaction: Some(
            match stored.current_transaction_id {
                Some(id) if known && s.transactions.contains_key(id) && s.transactions[id].producer == session => Some(
                    TransactionRow {
                        ongoing: s.transactions[id].status == TransactionStatus::Ongoing,
                        partition_added: s.transactions[id].partitions.contains_key(p),
                    },
                ),
                _ => None,
            },
        ),
        sequence: Some(
            if known && stored.sequences.contains_key(p) {
                let sequence = stored.sequences[p];
                Some(
                    SequenceRow {
                        epoch: sequence.epoch,
                        last_sequence: sequence.last_sequence,
                        history_start_offset: sequence.history_start_offset,
                    },
                )
            } else {
                None
            },
        ),
        duplicate: Some(
            if known {
                log_append::repeated(s, p, batch.producer->0)
            } else {
                None
            },
        ),
    }
}

/// Whether the current transaction of a producer is one of its own transactional id.
pub open spec fn owns_its_transaction(s: LogStateView, producer_id: i64) -> bool {
    s.producers.contains_key(producer_id) ==> (s.producers[producer_id].current_transaction_id matches Some(id) ==> (s.transactions.contains_key(
        id,
    ) ==> Some(s.transactions[id].transactional_id) == s.producers[producer_id].transactional_id))
}

proof fn found_spans_fit(spans: Seq<StoredSpanView>, first: i32, last: i32)
    ensures
        log_append::with_sequences(spans, first, last) matches Some(span) ==> spans.contains(span) && span.producer is Some
            && span.producer->0.first_sequence == first && span.producer->0.last_sequence == last,
    decreases spans.len(),
{
    if spans.len() > 0 {
        found_spans_fit(spans.drop_first(), first, last);
        if let Some(span) = log_append::with_sequences(spans, first, last) {
            if spans.drop_first().contains(span) {
                let j = choose|j: int| 0 <= j < spans.drop_first().len() && spans.drop_first()[j] == span;
                assert(spans[j + 1] == span);
            } else {
                assert(spans[0] == span);
            }
        }
    }
}

proof fn recent_spans_are_spans(spans: Seq<StoredSpanView>, floor: i64, producer_id: i64, epoch: i16, limit: nat, span: StoredSpanView)
    requires
        log_append::recent(spans, floor, producer_id, epoch, limit).contains(span),
    ensures
        spans.contains(span),
    decreases spans.len(),
{
    let rest = spans.drop_last();
    let found = log_append::recent(spans, floor, producer_id, epoch, limit);
    let at = choose|at: int| 0 <= at < found.len() && found[at] == span;
    if log_append::written_by(spans.last(), floor, producer_id, epoch) {
        let others = log_append::recent(rest, floor, producer_id, epoch, (limit - 1) as nat);
        assert(found == seq![spans.last()] + others);
        if at == 0 {
            assert(spans[spans.len() - 1] == span);
        } else {
            assert(others[at - 1] == span);
            recent_spans_are_spans(rest, floor, producer_id, epoch, (limit - 1) as nat, span);
        }
    } else {
        assert(found == log_append::recent(rest, floor, producer_id, epoch, limit));
        recent_spans_are_spans(rest, floor, producer_id, epoch, limit, span);
    }
    if rest.contains(span) {
        let j = choose|j: int| 0 <= j < rest.len() && rest[j] == span;
        assert(spans[j] == span);
    }
}

/// A batch is judged alike by its rows and by the state that the rows stand for: what the one accepts
/// the other accepts, with the same span.
pub proof fn rows_and_state_agree(s: LogStateView, object_key: Seq<char>, batch: BatchDraftView, topic_id: u128)
    requires
        log_append::bounds_hold(batch),
        batch.producer is Some ==> owns_its_transaction(s, batch.producer->0.producer_id),
        s.partitions.contains_key(batch.partition) ==> forall|i: int|
            0 <= i < s.partitions[batch.partition].spans.len() ==> (#[trigger] s.partitions[batch.partition].spans[i]).partition == batch.partition,
    ensures
        match step(object_key, batch, rows_of(s, batch, topic_id)) {
            Err(_) => log_append::batch_stored(s, object_key, batch) is Err,
            Ok(StepView::Answer(span)) => log_append::batch_stored(s, object_key, batch) == Ok::<
                (LogStateView, StoredSpanView, bool),
                ControlErrorView,
            >((s, span, false)),
            Ok(StepView::Append(new)) => log_append::batch_stored(s, object_key, batch) == Ok::<
                (LogStateView, StoredSpanView, bool),
                ControlErrorView,
            >((log_append::appended(s, object_key, batch, new.span.transaction_id, new.history_floor), new.span, true)) && new.next_offset
                == log_append::appended(
                s,
                object_key,
                batch,
                new.span.transaction_id,
                new.history_floor,
            ).partitions[batch.partition].next_offset,
            Ok(_) => false,
        },
{
    if let Some(producer) = batch.producer {
        if s.producers.contains_key(producer.producer_id) && s.partitions.contains_key(batch.partition) {
            if let Some(span) = log_append::repeated(s, batch.partition, producer) {
                let spans = s.partitions[batch.partition].spans;
                let sequence = log_append::sequence_of(s, batch.partition, producer)->0;
                let floor = sequence.history_start_offset;
                let limit = PRODUCER_BATCH_HISTORY_LIMIT as nat;
                let latest = log_append::recent(spans, floor, producer.producer_id, producer.producer_epoch, limit);
                found_spans_fit(latest, producer.first_sequence, producer.last_sequence);
                log_objects::recent_is_written(spans, floor, producer.producer_id, producer.producer_epoch, limit);
                recent_spans_are_spans(spans, floor, producer.producer_id, producer.producer_epoch, limit, span);
                let at = choose|at: int| 0 <= at < latest.len() && latest[at] == span;
                assert(log_append::written_by(latest[at], floor, producer.producer_id, producer.producer_epoch));
                assert(span.producer == Some(producer));
                let j = choose|j: int| 0 <= j < spans.len() && spans[j] == span;
                assert(spans[j].partition == batch.partition);
            }
        }
    }
}

} // verus!
