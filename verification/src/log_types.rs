//! What a log is made of: objects, spans, producers and transactions.

use crate::partition::{PartitionKey, PartitionKeyView, TopicInfo, TopicInfoView};
use crate::sorted_map::{Duplicate, SortedMap};
use crate::time::Timestamp;
use vstd::prelude::*;

verus! {

/// A producer id with the epoch under which it writes.
#[derive(Debug, Clone, Copy, PartialEq, Eq, Structural)]
pub struct ProducerSession {
    pub producer_id: i64,
    pub producer_epoch: i16,
}

impl DeepView for ProducerSession {
    type V = ProducerSession;

    open spec fn deep_view(&self) -> ProducerSession {
        *self
    }
}

impl Duplicate for ProducerSession {
    fn duplicate(&self) -> (r: Self) {
        *self
    }
}

/// The producer of a batch and the sequence numbers of its records.
#[derive(Debug, Clone, Copy, PartialEq, Eq, Structural)]
pub struct ProducerBatch {
    pub producer_id: i64,
    pub producer_epoch: i16,
    pub first_sequence: i32,
    pub last_sequence: i32,
}

impl DeepView for ProducerBatch {
    type V = ProducerBatch;

    open spec fn deep_view(&self) -> ProducerBatch {
        *self
    }
}

impl Duplicate for ProducerBatch {
    fn duplicate(&self) -> (r: Self) {
        *self
    }
}

/// Which records a reader is shown.
#[derive(Debug, Clone, Copy, PartialEq, Eq, Structural)]
pub enum FetchIsolation {
    /// Every record is shown.
    ReadUncommitted,
    /// Only records that no open or aborted transaction wrote are shown.
    ReadCommitted,
}

impl DeepView for FetchIsolation {
    type V = FetchIsolation;

    open spec fn deep_view(&self) -> FetchIsolation {
        *self
    }
}

impl Duplicate for FetchIsolation {
    fn duplicate(&self) -> (r: Self) {
        *self
    }
}

/// How far a transaction has come.
#[derive(Debug, Clone, Copy, PartialEq, Eq, Structural)]
pub enum TransactionStatus {
    /// The transaction is open.
    Ongoing,
    /// The transaction was committed.
    Committed,
    /// The transaction was aborted.
    Aborted,
}

impl DeepView for TransactionStatus {
    type V = TransactionStatus;

    open spec fn deep_view(&self) -> TransactionStatus {
        *self
    }
}

impl Duplicate for TransactionStatus {
    fn duplicate(&self) -> (r: Self) {
        *self
    }
}

/// What is told of a transactional id.
#[derive(Debug, Clone, Copy, PartialEq, Eq, Structural)]
pub enum TransactionState {
    /// No transaction was started yet.
    Empty,
    /// The latest transaction is open.
    Ongoing,
    /// The latest transaction was committed.
    CompleteCommit,
    /// The latest transaction was aborted.
    CompleteAbort,
}

impl DeepView for TransactionState {
    type V = TransactionState;

    open spec fn deep_view(&self) -> TransactionState {
        *self
    }
}

impl Duplicate for TransactionState {
    fn duplicate(&self) -> (r: Self) {
        *self
    }
}

/// A stored object.
#[derive(Debug, Clone)]
pub struct ObjectRef {
    pub key: String,
    pub size: u64,
}

/// The model of [`ObjectRef`].
pub struct ObjectRefView {
    pub key: Seq<char>,
    pub size: u64,
}

impl DeepView for ObjectRef {
    type V = ObjectRefView;

    open spec fn deep_view(&self) -> ObjectRefView {
        ObjectRefView {
            key: self.key@,
            size: self.size,
        }
    }
}

impl Duplicate for ObjectRef {
    fn duplicate(&self) -> (r: Self) {
        ObjectRef {
            key: self.key.clone(),
            size: self.size,
        }
    }
}

/// How the bytes of a span can be checked: spans of the old format carry no checksum.
#[derive(Debug, Clone, PartialEq, Eq)]
pub struct SpanIntegrity {
    pub checksum: Option<Vec<u8>>,
}

/// The model of [`SpanIntegrity`].
pub struct SpanIntegrityView {
    pub checksum: Option<Seq<u8>>,
}

impl DeepView for SpanIntegrity {
    type V = SpanIntegrityView;

    open spec fn deep_view(&self) -> SpanIntegrityView {
        SpanIntegrityView {
            checksum: self.checksum.deep_view(),
        }
    }
}

impl Duplicate for SpanIntegrity {
    fn duplicate(&self) -> (r: Self) {
        SpanIntegrity {
            checksum: self.checksum.duplicate(),
        }
    }
}

/// A batch of records that is to be appended: where its bytes stand in the object, and who wrote it.
#[derive(Debug, Clone)]
pub struct BatchDraft {
    pub partition: PartitionKey,
    pub byte_start: u64,
    pub byte_end: u64,
    pub record_count: i32,
    pub timestamp_ms: i64,
    pub checksum: Option<Vec<u8>>,
    pub producer: Option<ProducerBatch>,
    pub transactional_id: Option<String>,
    pub verify_transaction_partition: bool,
}

/// The model of [`BatchDraft`].
pub struct BatchDraftView {
    pub partition: PartitionKeyView,
    pub byte_start: u64,
    pub byte_end: u64,
    pub record_count: i32,
    pub timestamp_ms: i64,
    pub checksum: Option<Seq<u8>>,
    pub producer: Option<ProducerBatch>,
    pub transactional_id: Option<Seq<char>>,
    pub verify_transaction_partition: bool,
}

impl DeepView for BatchDraft {
    type V = BatchDraftView;

    open spec fn deep_view(&self) -> BatchDraftView {
        BatchDraftView {
            partition: self.partition.deep_view(),
            byte_start: self.byte_start,
            byte_end: self.byte_end,
            record_count: self.record_count,
            timestamp_ms: self.timestamp_ms,
            checksum: self.checksum.deep_view(),
            producer: self.producer.deep_view(),
            transactional_id: self.transactional_id.deep_view(),
            verify_transaction_partition: self.verify_transaction_partition,
        }
    }
}

impl Duplicate for BatchDraft {
    fn duplicate(&self) -> (r: Self) {
        BatchDraft {
            partition: self.partition.duplicate(),
            byte_start: self.byte_start,
            byte_end: self.byte_end,
            record_count: self.record_count,
            timestamp_ms: self.timestamp_ms,
            checksum: self.checksum.duplicate(),
            producer: self.producer.duplicate(),
            transactional_id: self.transactional_id.duplicate(),
            verify_transaction_partition: self.verify_transaction_partition,
        }
    }
}

/// A stretch of a partition's log and the bytes of the object that hold it.
#[derive(Debug, Clone, PartialEq, Eq)]
pub struct StoredSpan {
    pub partition: PartitionKey,
    pub object_key: String,
    pub byte_start: u64,
    pub byte_end: u64,
    pub base_offset: i64,
    pub last_offset: i64,
    pub record_count: i32,
    pub timestamp_ms: i64,
    pub integrity: SpanIntegrity,
    pub producer: Option<ProducerBatch>,
    pub transaction_id: Option<u128>,
    pub offsets_preserved: bool,
}

/// The model of [`StoredSpan`].
pub struct StoredSpanView {
    pub partition: PartitionKeyView,
    pub object_key: Seq<char>,
    pub byte_start: u64,
    pub byte_end: u64,
    pub base_offset: i64,
    pub last_offset: i64,
    pub record_count: i32,
    pub timestamp_ms: i64,
    pub integrity: SpanIntegrityView,
    pub producer: Option<ProducerBatch>,
    pub transaction_id: Option<u128>,
    pub offsets_preserved: bool,
}

impl DeepView for StoredSpan {
    type V = StoredSpanView;

    open spec fn deep_view(&self) -> StoredSpanView {
        StoredSpanView {
            partition: self.partition.deep_view(),
            object_key: self.object_key@,
            byte_start: self.byte_start,
            byte_end: self.byte_end,
            base_offset: self.base_offset,
            last_offset: self.last_offset,
            record_count: self.record_count,
            timestamp_ms: self.timestamp_ms,
            integrity: self.integrity.deep_view(),
            producer: self.producer.deep_view(),
            transaction_id: self.transaction_id.deep_view(),
            offsets_preserved: self.offsets_preserved,
        }
    }
}

impl Duplicate for StoredSpan {
    fn duplicate(&self) -> (r: Self) {
        StoredSpan {
            partition: self.partition.duplicate(),
            object_key: self.object_key.clone(),
            byte_start: self.byte_start,
            byte_end: self.byte_end,
            base_offset: self.base_offset,
            last_offset: self.last_offset,
            record_count: self.record_count,
            timestamp_ms: self.timestamp_ms,
            integrity: self.integrity.duplicate(),
            producer: self.producer.duplicate(),
            transaction_id: self.transaction_id.duplicate(),
            offsets_preserved: self.offsets_preserved,
        }
    }
}

/// What a fetch finds.
#[derive(Debug, Clone)]
pub struct PartitionFetch {
    pub spans: Vec<StoredSpan>,
    pub high_watermark: i64,
    pub last_stable_offset: i64,
    pub log_start_offset: i64,
}

/// The model of [`PartitionFetch`].
pub struct PartitionFetchView {
    pub spans: Seq<StoredSpanView>,
    pub high_watermark: i64,
    pub last_stable_offset: i64,
    pub log_start_offset: i64,
}

impl DeepView for PartitionFetch {
    type V = PartitionFetchView;

    open spec fn deep_view(&self) -> PartitionFetchView {
        PartitionFetchView {
            spans: self.spans.deep_view(),
            high_watermark: self.high_watermark,
            last_stable_offset: self.last_stable_offset,
            log_start_offset: self.log_start_offset,
        }
    }
}

/// The offsets that bound what readers of a partition see.
#[derive(Debug, Clone, Copy, PartialEq, Eq, Structural)]
pub struct PartitionWatermarks {
    pub high_watermark: i64,
    pub last_stable_offset: i64,
    pub log_start_offset: i64,
}

impl DeepView for PartitionWatermarks {
    type V = PartitionWatermarks;

    open spec fn deep_view(&self) -> PartitionWatermarks {
        *self
    }
}

impl Duplicate for PartitionWatermarks {
    fn duplicate(&self) -> (r: Self) {
        *self
    }
}

/// An offset that a group asks to store.
#[derive(Debug, Clone)]
pub struct OffsetCommit {
    pub partition: PartitionKey,
    pub offset: i64,
    pub leader_epoch: i32,
    pub metadata: Option<String>,
    pub retention_time_ms: Option<i64>,
}

/// The model of [`OffsetCommit`].
pub struct OffsetCommitView {
    pub partition: PartitionKeyView,
    pub offset: i64,
    pub leader_epoch: i32,
    pub metadata: Option<Seq<char>>,
    pub retention_time_ms: Option<i64>,
}

impl DeepView for OffsetCommit {
    type V = OffsetCommitView;

    open spec fn deep_view(&self) -> OffsetCommitView {
        OffsetCommitView {
            partition: self.partition.deep_view(),
            offset: self.offset,
            leader_epoch: self.leader_epoch,
            metadata: self.metadata.deep_view(),
            retention_time_ms: self.retention_time_ms.deep_view(),
        }
    }
}

impl Duplicate for OffsetCommit {
    fn duplicate(&self) -> (r: Self) {
        OffsetCommit {
            partition: self.partition.duplicate(),
            offset: self.offset,
            leader_epoch: self.leader_epoch,
            metadata: self.metadata.duplicate(),
            retention_time_ms: self.retention_time_ms.duplicate(),
        }
    }
}

/// An offset that a group has stored.
#[derive(Debug, Clone)]
pub struct CommittedOffset {
    pub offset: i64,
    pub leader_epoch: i32,
    pub metadata: Option<String>,
    pub commit_timestamp_ms: i64,
    pub expire_timestamp_ms: Option<i64>,
}

/// The model of [`CommittedOffset`].
pub struct CommittedOffsetView {
    pub offset: i64,
    pub leader_epoch: i32,
    pub metadata: Option<Seq<char>>,
    pub commit_timestamp_ms: i64,
    pub expire_timestamp_ms: Option<i64>,
}

impl DeepView for CommittedOffset {
    type V = CommittedOffsetView;

    open spec fn deep_view(&self) -> CommittedOffsetView {
        CommittedOffsetView {
            offset: self.offset,
            leader_epoch: self.leader_epoch,
            metadata: self.metadata.deep_view(),
            commit_timestamp_ms: self.commit_timestamp_ms,
            expire_timestamp_ms: self.expire_timestamp_ms.deep_view(),
        }
    }
}

impl Duplicate for CommittedOffset {
    fn duplicate(&self) -> (r: Self) {
        CommittedOffset {
            offset: self.offset,
            leader_epoch: self.leader_epoch,
            metadata: self.metadata.duplicate(),
            commit_timestamp_ms: self.commit_timestamp_ms,
            expire_timestamp_ms: self.expire_timestamp_ms.duplicate(),
        }
    }
}

/// A producer with state on a partition.
#[derive(Debug, Clone, PartialEq, Eq)]
pub struct ActiveProducer {
    pub producer_id: i64,
    pub producer_epoch: i16,
    pub last_sequence: i32,
    pub last_timestamp: i64,
    pub current_transaction_start_offset: i64,
}

/// The model of [`ActiveProducer`].
pub struct ActiveProducerView {
    pub producer_id: i64,
    pub producer_epoch: i16,
    pub last_sequence: i32,
    pub last_timestamp: i64,
    pub current_transaction_start_offset: i64,
}

impl DeepView for ActiveProducer {
    type V = ActiveProducerView;

    open spec fn deep_view(&self) -> ActiveProducerView {
        ActiveProducerView {
            producer_id: self.producer_id,
            producer_epoch: self.producer_epoch,
            last_sequence: self.last_sequence,
            last_timestamp: self.last_timestamp,
            current_transaction_start_offset: self.current_transaction_start_offset,
        }
    }
}

impl Duplicate for ActiveProducer {
    fn duplicate(&self) -> (r: Self) {
        ActiveProducer {
            producer_id: self.producer_id,
            producer_epoch: self.producer_epoch,
            last_sequence: self.last_sequence,
            last_timestamp: self.last_timestamp,
            current_transaction_start_offset: self.current_transaction_start_offset,
        }
    }
}

/// The session that a producer was given, and the one that holds its prepared transaction.
#[derive(Debug, Clone, PartialEq, Eq)]
pub struct ProducerInitialization {
    pub producer: ProducerSession,
    pub ongoing_transaction: Option<ProducerSession>,
}

/// The model of [`ProducerInitialization`].
pub struct ProducerInitializationView {
    pub producer: ProducerSession,
    pub ongoing_transaction: Option<ProducerSession>,
}

impl DeepView for ProducerInitialization {
    type V = ProducerInitializationView;

    open spec fn deep_view(&self) -> ProducerInitializationView {
        ProducerInitializationView {
            producer: self.producer,
            ongoing_transaction: self.ongoing_transaction.deep_view(),
        }
    }
}

impl Duplicate for ProducerInitialization {
    fn duplicate(&self) -> (r: Self) {
        ProducerInitialization {
            producer: self.producer,
            ongoing_transaction: self.ongoing_transaction.duplicate(),
        }
    }
}

/// What is told of a transactional id.
#[derive(Debug, Clone, PartialEq, Eq)]
pub struct TransactionDescription {
    pub transactional_id: String,
    pub producer: ProducerSession,
    pub state: TransactionState,
    pub timeout_ms: i32,
    pub start_time_ms: i64,
    pub partitions: Vec<PartitionKey>,
}

/// The model of [`TransactionDescription`].
pub struct TransactionDescriptionView {
    pub transactional_id: Seq<char>,
    pub producer: ProducerSession,
    pub state: TransactionState,
    pub timeout_ms: i32,
    pub start_time_ms: i64,
    pub partitions: Seq<PartitionKeyView>,
}

impl DeepView for TransactionDescription {
    type V = TransactionDescriptionView;

    open spec fn deep_view(&self) -> TransactionDescriptionView {
        TransactionDescriptionView {
            transactional_id: self.transactional_id@,
            producer: self.producer,
            state: self.state,
            timeout_ms: self.timeout_ms,
            start_time_ms: self.start_time_ms,
            partitions: self.partitions.deep_view(),
        }
    }
}

impl Duplicate for TransactionDescription {
    fn duplicate(&self) -> (r: Self) {
        TransactionDescription {
            transactional_id: self.transactional_id.clone(),
            producer: self.producer,
            state: self.state,
            timeout_ms: self.timeout_ms,
            start_time_ms: self.start_time_ms,
            partitions: self.partitions.duplicate(),
        }
    }
}

/// Which transactional ids a listing asks for.
#[derive(Debug, Clone, PartialEq, Eq)]
pub struct TransactionFilter {
    pub state_filters: Vec<String>,
    pub producer_id_filters: Vec<i64>,
    pub min_duration_ms: Option<i64>,
    pub transactional_id_pattern: Option<String>,
}

/// The model of [`TransactionFilter`].
pub struct TransactionFilterView {
    pub state_filters: Seq<Seq<char>>,
    pub producer_id_filters: Seq<i64>,
    pub min_duration_ms: Option<i64>,
    pub transactional_id_pattern: Option<Seq<char>>,
}

impl DeepView for TransactionFilter {
    type V = TransactionFilterView;

    open spec fn deep_view(&self) -> TransactionFilterView {
        TransactionFilterView {
            state_filters: self.state_filters.deep_view(),
            producer_id_filters: self.producer_id_filters.deep_view(),
            min_duration_ms: self.min_duration_ms.deep_view(),
            transactional_id_pattern: self.transactional_id_pattern.deep_view(),
        }
    }
}

/// How the records of a topic are cleaned up.
#[derive(Debug, Clone, PartialEq, Eq)]
pub struct TopicConfig {
    pub delete_records: bool,
    pub compact_records: bool,
    pub retention_ms: i64,
    pub retention_bytes: i64,
    pub file_delete_delay_ms: i64,
    pub delete_retention_ms: i64,
    pub min_compaction_lag_ms: i64,
    pub max_compaction_lag_ms: i64,
}

/// The model of [`TopicConfig`].
pub struct TopicConfigView {
    pub delete_records: bool,
    pub compact_records: bool,
    pub retention_ms: i64,
    pub retention_bytes: i64,
    pub file_delete_delay_ms: i64,
    pub delete_retention_ms: i64,
    pub min_compaction_lag_ms: i64,
    pub max_compaction_lag_ms: i64,
}

impl DeepView for TopicConfig {
    type V = TopicConfigView;

    open spec fn deep_view(&self) -> TopicConfigView {
        TopicConfigView {
            delete_records: self.delete_records,
            compact_records: self.compact_records,
            retention_ms: self.retention_ms,
            retention_bytes: self.retention_bytes,
            file_delete_delay_ms: self.file_delete_delay_ms,
            delete_retention_ms: self.delete_retention_ms,
            min_compaction_lag_ms: self.min_compaction_lag_ms,
            max_compaction_lag_ms: self.max_compaction_lag_ms,
        }
    }
}

impl Duplicate for TopicConfig {
    fn duplicate(&self) -> (r: Self) {
        TopicConfig {
            delete_records: self.delete_records,
            compact_records: self.compact_records,
            retention_ms: self.retention_ms,
            retention_bytes: self.retention_bytes,
            file_delete_delay_ms: self.file_delete_delay_ms,
            delete_retention_ms: self.delete_retention_ms,
            min_compaction_lag_ms: self.min_compaction_lag_ms,
            max_compaction_lag_ms: self.max_compaction_lag_ms,
        }
    }
}

/// What a retention pass removed, and which objects may now be deleted.
#[derive(Debug, Clone, PartialEq, Eq)]
pub struct RetentionResult {
    pub removed_spans: u64,
    pub deletable_objects: Vec<String>,
}

/// The model of [`RetentionResult`].
pub struct RetentionResultView {
    pub removed_spans: u64,
    pub deletable_objects: Seq<Seq<char>>,
}

impl DeepView for RetentionResult {
    type V = RetentionResultView;

    open spec fn deep_view(&self) -> RetentionResultView {
        RetentionResultView {
            removed_spans: self.removed_spans,
            deletable_objects: self.deletable_objects.deep_view(),
        }
    }
}

/// The log of a partition.
pub struct MemoryPartition {
    pub next_offset: i64,
    pub log_start_offset: i64,
    pub compaction_last_offset: i64,
    pub compaction_recheck_at_ms: Option<i64>,
    pub compaction_lease: Option<(u128, i64)>,
    pub spans: Vec<StoredSpan>,
}

/// The model of [`MemoryPartition`].
pub struct MemoryPartitionView {
    pub next_offset: i64,
    pub log_start_offset: i64,
    pub compaction_last_offset: i64,
    pub compaction_recheck_at_ms: Option<i64>,
    pub compaction_lease: Option<(u128, i64)>,
    pub spans: Seq<StoredSpanView>,
}

impl DeepView for MemoryPartition {
    type V = MemoryPartitionView;

    open spec fn deep_view(&self) -> MemoryPartitionView {
        MemoryPartitionView {
            next_offset: self.next_offset,
            log_start_offset: self.log_start_offset,
            compaction_last_offset: self.compaction_last_offset,
            compaction_recheck_at_ms: self.compaction_recheck_at_ms.deep_view(),
            compaction_lease: self.compaction_lease.deep_view(),
            spans: self.spans.deep_view(),
        }
    }
}

impl Duplicate for MemoryPartition {
    fn duplicate(&self) -> (r: Self) {
        MemoryPartition {
            next_offset: self.next_offset,
            log_start_offset: self.log_start_offset,
            compaction_last_offset: self.compaction_last_offset,
            compaction_recheck_at_ms: self.compaction_recheck_at_ms.duplicate(),
            compaction_lease: self.compaction_lease.duplicate(),
            spans: self.spans.duplicate(),
        }
    }
}

/// What a partition remembers of a producer: its last sequence number, and from which offset on its batches count as recent.
pub struct MemoryProducerSequence {
    pub epoch: i16,
    pub last_sequence: i32,
    pub last_timestamp: i64,
    pub history_start_offset: i64,
}

/// The model of [`MemoryProducerSequence`].
pub struct MemoryProducerSequenceView {
    pub epoch: i16,
    pub last_sequence: i32,
    pub last_timestamp: i64,
    pub history_start_offset: i64,
}

impl DeepView for MemoryProducerSequence {
    type V = MemoryProducerSequenceView;

    open spec fn deep_view(&self) -> MemoryProducerSequenceView {
        MemoryProducerSequenceView {
            epoch: self.epoch,
            last_sequence: self.last_sequence,
            last_timestamp: self.last_timestamp,
            history_start_offset: self.history_start_offset,
        }
    }
}

impl Duplicate for MemoryProducerSequence {
    fn duplicate(&self) -> (r: Self) {
        MemoryProducerSequence {
            epoch: self.epoch,
            last_sequence: self.last_sequence,
            last_timestamp: self.last_timestamp,
            history_start_offset: self.history_start_offset,
        }
    }
}

/// A producer id that was handed out.
pub struct MemoryProducer {
    pub epoch: i16,
    pub transactional_id: Option<String>,
    pub transaction_timeout_ms: i32,
    pub two_phase_commit: bool,
    pub current_transaction_id: Option<u128>,
    pub last_transaction_update_ms: i64,
    pub sequences: SortedMap<PartitionKey, MemoryProducerSequence>,
}

/// The model of [`MemoryProducer`].
pub struct MemoryProducerView {
    pub epoch: i16,
    pub transactional_id: Option<Seq<char>>,
    pub transaction_timeout_ms: i32,
    pub two_phase_commit: bool,
    pub current_transaction_id: Option<u128>,
    pub last_transaction_update_ms: i64,
    pub sequences: Map<PartitionKeyView, MemoryProducerSequenceView>,
}

impl DeepView for MemoryProducer {
    type V = MemoryProducerView;

    open spec fn deep_view(&self) -> MemoryProducerView {
        MemoryProducerView {
            epoch: self.epoch,
            transactional_id: self.transactional_id.deep_view(),
            transaction_timeout_ms: self.transaction_timeout_ms,
            two_phase_commit: self.two_phase_commit,
            current_transaction_id: self.current_transaction_id.deep_view(),
            last_transaction_update_ms: self.last_transaction_update_ms,
            sequences: self.sequences.deep_view(),
        }
    }
}

impl Duplicate for MemoryProducer {
    fn duplicate(&self) -> (r: Self) {
        MemoryProducer {
            epoch: self.epoch,
            transactional_id: self.transactional_id.duplicate(),
            transaction_timeout_ms: self.transaction_timeout_ms,
            two_phase_commit: self.two_phase_commit,
            current_transaction_id: self.current_transaction_id.duplicate(),
            last_transaction_update_ms: self.last_transaction_update_ms,
            sequences: self.sequences.duplicate(),
        }
    }
}

/// A transaction.
pub struct MemoryTransaction {
    pub transactional_id: String,
    pub producer: ProducerSession,
    pub status: TransactionStatus,
    pub partitions: SortedMap<PartitionKey, ()>,
    pub groups: SortedMap<String, ()>,
    pub offsets: SortedMap<(String, PartitionKey), CommittedOffset>,
    pub started_at: Timestamp,
    pub expires_at: Option<Timestamp>,
    pub marker_producer_epoch: Option<i16>,
    pub marker_coordinator_epoch: Option<i32>,
    pub marker_transaction_version: Option<i8>,
}

/// The model of [`MemoryTransaction`].
pub struct MemoryTransactionView {
    pub transactional_id: Seq<char>,
    pub producer: ProducerSession,
    pub status: TransactionStatus,
    pub partitions: Map<PartitionKeyView, ()>,
    pub groups: Map<Seq<char>, ()>,
    pub offsets: Map<(Seq<char>, PartitionKeyView), CommittedOffsetView>,
    pub started_at: int,
    pub expires_at: Option<int>,
    pub marker_producer_epoch: Option<i16>,
    pub marker_coordinator_epoch: Option<i32>,
    pub marker_transaction_version: Option<i8>,
}

impl DeepView for MemoryTransaction {
    type V = MemoryTransactionView;

    open spec fn deep_view(&self) -> MemoryTransactionView {
        MemoryTransactionView {
            transactional_id: self.transactional_id@,
            producer: self.producer,
            status: self.status,
            partitions: self.partitions.deep_view(),
            groups: self.groups.deep_view(),
            offsets: self.offsets.deep_view(),
            started_at: self.started_at.deep_view(),
            expires_at: self.expires_at.deep_view(),
            marker_producer_epoch: self.marker_producer_epoch.deep_view(),
            marker_coordinator_epoch: self.marker_coordinator_epoch.deep_view(),
            marker_transaction_version: self.marker_transaction_version.deep_view(),
        }
    }
}

impl Duplicate for MemoryTransaction {
    fn duplicate(&self) -> (r: Self) {
        MemoryTransaction {
            transactional_id: self.transactional_id.clone(),
            producer: self.producer,
            status: self.status,
            partitions: self.partitions.duplicate(),
            groups: self.groups.duplicate(),
            offsets: self.offsets.duplicate(),
            started_at: self.started_at,
            expires_at: self.expires_at.duplicate(),
            marker_producer_epoch: self.marker_producer_epoch.duplicate(),
            marker_coordinator_epoch: self.marker_coordinator_epoch.duplicate(),
            marker_transaction_version: self.marker_transaction_version.duplicate(),
        }
    }
}

/// Topics and their logs, the objects that hold them, and who writes and reads them.
pub struct LogState {
    pub default_config: TopicConfig,
    pub topics: SortedMap<String, TopicInfo>,
    pub topic_configs: SortedMap<String, TopicConfig>,
    pub partitions: SortedMap<PartitionKey, MemoryPartition>,
    pub objects: SortedMap<String, ObjectRef>,
    pub staged_objects: SortedMap<String, i64>,
    pub orphan_gc_claims: SortedMap<String, i64>,
    pub unreferenced_objects: SortedMap<String, i64>,
    pub object_delete_after: SortedMap<String, i64>,
    pub offsets: SortedMap<(String, PartitionKey), CommittedOffset>,
    pub next_producer_id: i64,
    pub producers: SortedMap<i64, MemoryProducer>,
    pub transactional_producers: SortedMap<String, i64>,
    pub transactions: SortedMap<u128, MemoryTransaction>,
}

/// The model of [`LogState`].
pub struct LogStateView {
    pub default_config: TopicConfigView,
    pub topics: Map<Seq<char>, TopicInfoView>,
    pub topic_configs: Map<Seq<char>, TopicConfigView>,
    pub partitions: Map<PartitionKeyView, MemoryPartitionView>,
    pub objects: Map<Seq<char>, ObjectRefView>,
    pub staged_objects: Map<Seq<char>, i64>,
    pub orphan_gc_claims: Map<Seq<char>, i64>,
    pub unreferenced_objects: Map<Seq<char>, i64>,
    pub object_delete_after: Map<Seq<char>, i64>,
    pub offsets: Map<(Seq<char>, PartitionKeyView), CommittedOffsetView>,
    pub next_producer_id: i64,
    pub producers: Map<i64, MemoryProducerView>,
    pub transactional_producers: Map<Seq<char>, i64>,
    pub transactions: Map<u128, MemoryTransactionView>,
}

impl DeepView for LogState {
    type V = LogStateView;

    open spec fn deep_view(&self) -> LogStateView {
        LogStateView {
            default_config: self.default_config.deep_view(),
            topics: self.topics.deep_view(),
            topic_configs: self.topic_configs.deep_view(),
            partitions: self.partitions.deep_view(),
            objects: self.objects.deep_view(),
            staged_objects: self.staged_objects.deep_view(),
            orphan_gc_claims: self.orphan_gc_claims.deep_view(),
            unreferenced_objects: self.unreferenced_objects.deep_view(),
            object_delete_after: self.object_delete_after.deep_view(),
            offsets: self.offsets.deep_view(),
            next_producer_id: self.next_producer_id,
            producers: self.producers.deep_view(),
            transactional_producers: self.transactional_producers.deep_view(),
            transactions: self.transactions.deep_view(),
        }
    }
}

impl Duplicate for LogState {
    fn duplicate(&self) -> (r: Self) {
        LogState {
            default_config: self.default_config.duplicate(),
            topics: self.topics.duplicate(),
            topic_configs: self.topic_configs.duplicate(),
            partitions: self.partitions.duplicate(),
            objects: self.objects.duplicate(),
            staged_objects: self.staged_objects.duplicate(),
            orphan_gc_claims: self.orphan_gc_claims.duplicate(),
            unreferenced_objects: self.unreferenced_objects.duplicate(),
            object_delete_after: self.object_delete_after.duplicate(),
            offsets: self.offsets.duplicate(),
            next_producer_id: self.next_producer_id,
            producers: self.producers.duplicate(),
            transactional_producers: self.transactional_producers.duplicate(),
            transactions: self.transactions.duplicate(),
        }
    }
}

} // verus!
