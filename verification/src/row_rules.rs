//! Rules on rows of a database: what follows from the rows that were read.

use crate::compaction::{CompactionPlan, CompactionSourceSpan, CompactionSourceSpanView, CompactionTransactionState};
use crate::compaction_commit::same_span;
use crate::error;
use crate::error::{ControlError, ControlErrorView};
use crate::log_reads::fits_beside;
use crate::log_types::{
    FetchIsolation, ObjectRef, ObjectRefView, OffsetCommit, OffsetCommitView, PartitionFetch, PartitionFetchView,
    PartitionWatermarks, StoredSpan, StoredSpanView,
};
use crate::numbers;
use crate::offsets;
use crate::offsets::offset_expire_timestamp;
use crate::partition::{PartitionKey, PartitionKeyView};
use crate::sorted_map;
use crate::sorted_map::{Duplicate, SortedMap};
use crate::text::{join_texts, join_three, same_text};
use vstd::prelude::*;

verus! {

/// The row of a span, with the name of what has become of its transaction.
#[derive(Debug, Clone, PartialEq, Eq)]
pub struct SpanRow {
    pub span: StoredSpan,
    pub state: String,
}

/// The model of [`SpanRow`].
pub struct SpanRowView {
    pub span: StoredSpanView,
    pub state: Seq<char>,
}

impl DeepView for SpanRow {
    type V = SpanRowView;

    open spec fn deep_view(&self) -> SpanRowView {
        SpanRowView {
            span: self.span.deep_view(),
            state: self.state@,
        }
    }
}

impl Duplicate for SpanRow {
    fn duplicate(&self) -> (r: Self) {
        SpanRow {
            span: self.span.duplicate(),
            state: self.state.clone(),
        }
    }
}

/// Whether readers of committed records may see a span.
pub open spec fn shows(row: SpanRowView) -> bool {
    row.state == "visible"@ || row.state == "committed"@
}

/// The bytes of a row's span; a span that ends before it starts has none.
pub open spec fn span_bytes(span: StoredSpanView) -> int {
    if span.byte_start <= span.byte_end {
        span.byte_end - span.byte_start
    } else {
        0
    }
}

/// The bytes of some rows' spans.
pub open spec fn row_bytes(spans: Seq<StoredSpanView>) -> int
    decreases spans.len(),
{
    if spans.len() == 0 {
        0
    } else {
        row_bytes(spans.drop_last()) + span_bytes(spans.last())
    }
}

/// What a fetch takes from rows from place `i` on, when it has taken `taken`: for readers of committed
/// records, rows that they may not see are passed over; the fetch ends where open transactions begin,
/// or where one more span would pass `max_bytes`. The first span is taken whatever its size.
pub open spec fn rows_fetched(
    rows: Seq<SpanRowView>,
    i: int,
    taken: Seq<StoredSpanView>,
    max_bytes: int,
    committed_before: Option<i64>,
) -> Seq<StoredSpanView>
    decreases rows.len() - i,
{
    if i < 0 || i >= rows.len() {
        taken
    } else if committed_before is Some && rows[i].span.base_offset >= committed_before->0 {
        taken
    } else if committed_before is Some && !shows(rows[i]) {
        rows_fetched(rows, i + 1, taken, max_bytes, committed_before)
    } else if taken.len() > 0 && row_bytes(taken) + span_bytes(rows[i].span) > max_bytes {
        taken
    } else {
        rows_fetched(rows, i + 1, taken.push(rows[i].span), max_bytes, committed_before)
    }
}

/// Whether an offset lies within a log.
pub open spec fn offset_verdict(p: PartitionKeyView, offset: i64, marks: PartitionWatermarks) -> Result<(), ControlErrorView> {
    if offset < marks.log_start_offset || offset > marks.high_watermark {
        Err(
            ControlErrorView::OffsetOutOfRange { partition: p, offset, start: marks.log_start_offset, end: marks.high_watermark },
        )
    } else {
        Ok(())
    }
}

/// Checks that an offset lies within a log.
pub fn check_offset(partition: &PartitionKey, offset: i64, marks: PartitionWatermarks) -> (r: Result<(), ControlError>)
    ensures
        error::outcome(r) == offset_verdict(partition.deep_view(), offset, marks),
{
    if offset < marks.log_start_offset || offset > marks.high_watermark {
        return Err(
            ControlError::OffsetOutOfRange {
                partition: partition.duplicate(),
                offset,
                start: marks.log_start_offset,
                end: marks.high_watermark,
            },
        );
    }
    Ok(())
}

/// Picks what a fetch gives from the rows of a log that do not end before the offset.
pub fn fetch_rows(rows: &Vec<SpanRow>, max_bytes: usize, isolation: FetchIsolation, marks: PartitionWatermarks) -> (r: PartitionFetch)
    ensures
        r.deep_view() == (PartitionFetchView {
            spans: rows_fetched(
                rows.deep_view(),
                0,
                Seq::empty(),
                max_bytes as int,
                match isolation {
                    FetchIsolation::ReadCommitted => Some(marks.last_stable_offset),
                    FetchIsolation::ReadUncommitted => None,
                },
            ),
            high_watermark: marks.high_watermark,
            last_stable_offset: marks.last_stable_offset,
            log_start_offset: marks.log_start_offset,
        }),
{
    let ghost all = rows.deep_view();
    let ghost stable = match isolation {
        FetchIsolation::ReadCommitted => Some(marks.last_stable_offset),
        FetchIsolation::ReadUncommitted => None,
    };
    let ghost want = rows_fetched(all, 0, Seq::empty(), max_bytes as int, stable);
    let mut bytes: u64 = 0;
    let mut spans: Vec<StoredSpan> = Vec::new();
    assert(spans.deep_view() =~= Seq::empty());
    let mut i: usize = 0;
    while i < rows.len()
        invariant_except_break
            want == rows_fetched(all, i as int, spans.deep_view(), max_bytes as int, stable),
        invariant
            i <= rows@.len(),
            all == rows.deep_view(),
            stable == (match isolation {
                FetchIsolation::ReadCommitted => Some(marks.last_stable_offset),
                FetchIsolation::ReadUncommitted => None::<i64>,
            }),
            bytes == row_bytes(spans.deep_view()),
        ensures
            want == spans.deep_view(),
        decreases rows@.len() - i,
    {
        let row = &rows[i];
        proof {
            assert(all[i as int] == row.deep_view());
        }
        if isolation == FetchIsolation::ReadCommitted {
            if row.span.base_offset >= marks.last_stable_offset {
                break;
            }
            if !same_text(row.state.as_str(), "visible") && !same_text(row.state.as_str(), "committed") {
                i = i + 1;
                continue;
            }
        }
        let size: u64 = if row.span.byte_start <= row.span.byte_end {
            row.span.byte_end - row.span.byte_start
        } else {
            0
        };
        if spans.len() > 0 && !fits_beside(bytes, size, max_bytes) {
            break;
        }
        bytes = bytes + size;
        let ghost before = spans.deep_view();
        spans.push(row.span.duplicate());
        assert(spans.deep_view() =~= before.push(all[i as int].span));
        assert(spans.deep_view().drop_last() =~= before);
        i = i + 1;
    }
    PartitionFetch {
        spans,
        high_watermark: marks.high_watermark,
        last_stable_offset: marks.last_stable_offset,
        log_start_offset: marks.log_start_offset,
    }
}

/// The offset at a time: `-2` asks for the log's start and `-1` for its end; else the first span at or
/// after the time counts, and the end where there is none.
pub fn pick_offset(timestamp_ms: i64, log_start_offset: i64, next_offset: i64, found: Option<i64>) -> (r: i64)
    ensures
        r == (if timestamp_ms == -2 {
            log_start_offset
        } else if timestamp_ms == -1 {
            next_offset
        } else {
            match found {
                Some(base) => base,
                None => next_offset,
            }
        }),
{
    if timestamp_ms == -2 {
        return log_start_offset;
    }
    if timestamp_ms == -1 {
        return next_offset;
    }
    match found {
        Some(base) => base,
        None => next_offset,
    }
}

/// Where a log starts after records have been deleted: `-1` asks for its end, an open transaction is
/// left alone, and the start never moves back.
pub open spec fn new_start(p: PartitionKeyView, before_offset: i64, next_offset: i64, log_start_offset: i64, first_open: Option<i64>) -> Result<
    i64,
    ControlErrorView,
> {
    let asked = if before_offset == -1 {
        next_offset
    } else {
        before_offset
    };
    if asked < 0 || asked > next_offset {
        Err(ControlErrorView::OffsetOutOfRange { partition: p, offset: before_offset, start: log_start_offset, end: next_offset })
    } else {
        let target = if first_open is Some && first_open->0 < asked {
            first_open->0
        } else {
            asked
        };
        Ok(
            if log_start_offset < target {
                target
            } else {
                log_start_offset
            },
        )
    }
}

/// Decides where a log starts after records have been deleted.
pub fn move_start(partition: &PartitionKey, before_offset: i64, next_offset: i64, log_start_offset: i64, first_open: Option<i64>) -> (r: Result<
    i64,
    ControlError,
>)
    ensures
        error::outcome(r) == new_start(partition.deep_view(), before_offset, next_offset, log_start_offset, first_open),
{
    let asked: i64 = if before_offset == -1 {
        next_offset
    } else {
        before_offset
    };
    if asked < 0 || asked > next_offset {
        return Err(
            ControlError::OffsetOutOfRange {
                partition: partition.duplicate(),
                offset: before_offset,
                start: log_start_offset,
                end: next_offset,
            },
        );
    }
    let target: i64 = match first_open {
        Some(open) => if open < asked {
            open
        } else {
            asked
        },
        None => asked,
    };
    Ok(
        if log_start_offset < target {
            target
        } else {
            log_start_offset
        },
    )
}

/// The row of an object: its size, whether it is committed, and whether it was claimed to be deleted.
#[derive(Debug, Clone, Copy, PartialEq, Eq, Structural)]
pub struct ObjectRow {
    pub size_bytes: i64,
    pub committed: bool,
    pub claimed: bool,
}

impl DeepView for ObjectRow {
    type V = ObjectRow;

    open spec fn deep_view(&self) -> ObjectRow {
        *self
    }
}

impl Duplicate for ObjectRow {
    fn duplicate(&self) -> (r: Self) {
        *self
    }
}

/// The size of an object as a row holds it.
pub open spec fn row_size(object: ObjectRefView) -> Result<i64, ControlErrorView> {
    if object.size > i64::MAX {
        Err(ControlErrorView::InvalidRequest("object size exceeds BIGINT"@))
    } else {
        Ok(object.size as i64)
    }
}

/// Finds the size of an object as a row holds it.
pub fn object_size(object: &ObjectRef) -> (r: Result<i64, ControlError>)
    ensures
        error::outcome(r) == row_size(object.deep_view()),
{
    if object.size > i64::MAX as u64 {
        return Err(ControlError::InvalidRequest("object size exceeds BIGINT".to_owned()));
    }
    Ok(object.size as i64)
}

/// Whether an object may be committed, given its row.
pub open spec fn staged_verdict(object: ObjectRefView, row: Option<ObjectRow>) -> Result<(), ControlErrorView> {
    match row {
        None => Err(ControlErrorView::InvalidRequest("object "@ + object.key + " was not staged"@)),
        Some(row) => if row.committed {
            Err(ControlErrorView::InvalidRequest("object "@ + object.key + " is already committed"@))
        } else if row.claimed {
            Err(ControlErrorView::InvalidRequest("object "@ + object.key + " was claimed for orphan deletion"@))
        } else {
            match row_size(object) {
                Err(refusal) => Err(refusal),
                Ok(size) => if row.size_bytes != size {
                    Err(ControlErrorView::InvalidRequest("staged object "@ + object.key + " changed size"@))
                } else {
                    Ok(())
                },
            }
        },
    }
}

/// Checks that an object may be committed, given its row.
pub fn check_staged(object: &ObjectRef, row: Option<ObjectRow>) -> (r: Result<(), ControlError>)
    ensures
        error::outcome(r) == staged_verdict(object.deep_view(), row),
{
    let row: ObjectRow = match row {
        None => return Err(ControlError::InvalidRequest(join_three("object ", object.key.as_str(), " was not staged"))),
        Some(row) => row,
    };
    if row.committed {
        return Err(ControlError::InvalidRequest(join_three("object ", object.key.as_str(), " is already committed")));
    }
    if row.claimed {
        return Err(ControlError::InvalidRequest(join_three("object ", object.key.as_str(), " was claimed for orphan deletion")));
    }
    let size: i64 = object_size(object)?;
    if row.size_bytes != size {
        return Err(ControlError::InvalidRequest(join_three("staged object ", object.key.as_str(), " changed size")));
    }
    Ok(())
}

/// Checks that a group may be deleted, given how many members it has and whether anything is stored
/// under its id.
pub fn check_group_deletion(group_id: &str, member_count: i64, exists_anywhere: bool) -> (r: Result<(), ControlError>)
    ensures
        error::outcome(r) == (if member_count > 0 {
            Err(ControlErrorView::NonEmptyGroup(group_id@))
        } else if !exists_anywhere {
            Err(ControlErrorView::GroupNotFound(group_id@))
        } else {
            Ok::<(), ControlErrorView>(())
        }),
{
    if member_count > 0 {
        return Err(ControlError::NonEmptyGroup(group_id.to_owned()));
    }
    if !exists_anywhere {
        return Err(ControlError::GroupNotFound(group_id.to_owned()));
    }
    Ok(())
}

/// Checks that a member of a consumer group speaks of its epoch, given the epoch of its row.
pub fn check_member_epoch(group_id: &str, member_id: &str, stored: Option<i32>, actual: i32) -> (r: Result<(), ControlError>)
    ensures
        error::outcome(r) == (match stored {
            None => Err(ControlErrorView::GroupMemberNotFound { group: group_id@, member: member_id@ }),
            Some(expected) => if expected != actual {
                Err(ControlErrorView::FencedMemberEpoch { group: group_id@, member: member_id@, expected, actual })
            } else {
                Ok::<(), ControlErrorView>(())
            },
        }),
{
    match stored {
        None => Err(ControlError::GroupMemberNotFound { group: group_id.to_owned(), member: member_id.to_owned() }),
        Some(expected) => if expected != actual {
            Err(ControlError::FencedMemberEpoch { group: group_id.to_owned(), member: member_id.to_owned(), expected, actual })
        } else {
            Ok(())
        },
    }
}

/// The expiry of an offset that is to be stored, given whether its topic and its partition exist.
pub open spec fn commit_verdict(offset: OffsetCommitView, topic_exists: bool, partition_exists: bool, now_ms: i64) -> Result<
    Option<i64>,
    ControlErrorView,
> {
    if offset.offset < 0 {
        Err(ControlErrorView::InvalidRequest("committed offset must not be negative"@))
    } else if !topic_exists {
        Err(ControlErrorView::TopicNotFound(offset.partition.topic))
    } else if !partition_exists {
        Err(ControlErrorView::PartitionNotFound { topic: offset.partition.topic, partition: offset.partition.partition })
    } else {
        offsets::expiry(now_ms, offset.retention_time_ms)
    }
}

/// Checks an offset that is to be stored, and finds its expiry.
pub fn check_commit(offset: &OffsetCommit, topic_exists: bool, partition_exists: bool, now_ms: i64) -> (r: Result<Option<i64>, ControlError>)
    ensures
        error::outcome(r) == commit_verdict(offset.deep_view(), topic_exists, partition_exists, now_ms),
{
    if offset.offset < 0 {
        return Err(ControlError::InvalidRequest("committed offset must not be negative".to_owned()));
    }
    if !topic_exists {
        return Err(ControlError::TopicNotFound(offset.partition.topic.clone()));
    }
    if !partition_exists {
        return Err(
            ControlError::PartitionNotFound { topic: offset.partition.topic.clone(), partition: offset.partition.partition },
        );
    }
    offset_expire_timestamp(now_ms, offset.retention_time_ms)
}

/// The places of rows, each behind its topic and partition.
pub open spec fn row_places(rows: Seq<(u128, i32)>) -> Set<((u128, i32), usize)> {
    Set::new(|place: ((u128, i32), usize)| place.1 < rows.len() && rows[place.1 as int] == place.0)
}

/// The places of rows in the order in which the rows are written: by topic and partition, then as they
/// were given.
pub fn order_rows(rows: &Vec<(u128, i32)>) -> (r: Vec<((u128, i32), usize)>)
    ensures
        r.deep_view() == sorted_map::sorted_keys::<((u128, i32), usize)>(row_places(rows@)),
{
    let mut order: SortedMap<((u128, i32), usize), ()> = SortedMap::new();
    let mut i: usize = 0;
    while i < rows.len()
        invariant
            i <= rows@.len(),
            forall|place: ((u128, i32), usize)| #[trigger] order.deep_view().contains_key(place) <==> row_places(rows@).contains(place)
                && place.1 < i,
        decreases rows@.len() - i,
    {
        order.insert((rows[i], i), ());
        i = i + 1;
    }
    assert(order.deep_view().dom() =~= row_places(rows@));
    let r = order.keys();
    proof {
        sorted_map::sorted_keys_are::<((u128, i32), usize)>(r.deep_view(), row_places(rows@));
    }
    r
}

/// Whether the time of an offset is over: of one with an expiry at that time, and of others once they
/// are old enough; `None` where the group has to be asked too.
pub fn offset_due(now_ms: i64, retention_ms: i64, commit_timestamp_ms: i64, expire_timestamp_ms: Option<i64>) -> (r: Option<bool>)
    ensures
        r == (match expire_timestamp_ms {
            Some(expires) => Some(now_ms >= expires),
            None => if numbers::clamped_i64(now_ms - commit_timestamp_ms) >= retention_ms {
                None
            } else {
                Some(false)
            },
        }),
{
    match expire_timestamp_ms {
        Some(expires) => Some(now_ms >= expires),
        None => if numbers::saturating_difference(now_ms, commit_timestamp_ms) >= retention_ms {
            None
        } else {
            Some(false)
        },
    }
}

/// How far a group is behind the end of a log.
pub fn lag(high_watermark: i64, committed_offset: i64) -> (r: i64)
    requires
        high_watermark - committed_offset <= i64::MAX,
    ensures
        r == (if high_watermark < committed_offset {
            0
        } else {
            high_watermark - committed_offset
        }),
{
    if high_watermark < committed_offset {
        0
    } else {
        high_watermark - committed_offset
    }
}

/// What the name of a span's transaction state stands for. An open transaction counts as none.
pub open spec fn state_named(name: Seq<char>) -> Option<CompactionTransactionState> {
    if name == "visible"@ || name == "pending"@ {
        Some(CompactionTransactionState::Visible)
    } else if name == "committed"@ {
        Some(CompactionTransactionState::Committed)
    } else if name == "aborted"@ {
        Some(CompactionTransactionState::Aborted)
    } else {
        None
    }
}

/// The name of a transaction state.
pub open spec fn name_of(state: CompactionTransactionState) -> Seq<char> {
    match state {
        CompactionTransactionState::Visible => "visible"@,
        CompactionTransactionState::Committed => "committed"@,
        CompactionTransactionState::Aborted => "aborted"@,
    }
}

/// Reads the name of a transaction state.
pub fn transaction_state(name: &str) -> (r: Result<CompactionTransactionState, ControlError>)
    ensures
        match r {
            Ok(state) => state_named(name@) == Some(state),
            Err(refusal) => state_named(name@) is None && refusal.deep_view() == ControlErrorView::InvalidRequest(
                "unknown object span transaction state "@ + name@,
            ),
        },
{
    if same_text(name, "visible") || same_text(name, "pending") {
        Ok(CompactionTransactionState::Visible)
    } else if same_text(name, "committed") {
        Ok(CompactionTransactionState::Committed)
    } else if same_text(name, "aborted") {
        Ok(CompactionTransactionState::Aborted)
    } else {
        Err(ControlError::InvalidRequest(join_texts("unknown object span transaction state ", name)))
    }
}

/// Names a transaction state.
pub fn transaction_state_name(state: CompactionTransactionState) -> (r: &'static str)
    ensures
        r@ == name_of(state),
{
    match state {
        CompactionTransactionState::Visible => "visible",
        CompactionTransactionState::Committed => "committed",
        CompactionTransactionState::Aborted => "aborted",
    }
}

/// The rows of a log that can be compacted: those before the first that is younger than `cutoff_ms` or
/// that an open transaction wrote, as long as each names a state.
pub open spec fn rows_compactable(rows: Seq<SpanRowView>, ids: Seq<i64>, cutoff_ms: i64, i: int, taken: Seq<CompactionSourceSpanView>) -> Result<
    Seq<CompactionSourceSpanView>,
    ControlErrorView,
>
    decreases rows.len() - i,
{
    if i < 0 || i >= rows.len() || rows[i].span.timestamp_ms > cutoff_ms {
        Ok(taken)
    } else {
        match state_named(rows[i].state) {
            None => Err(ControlErrorView::InvalidRequest("unknown object span transaction state "@ + rows[i].state)),
            Some(state) => if rows[i].state == "pending"@ {
                Ok(taken)
            } else {
                rows_compactable(
                    rows,
                    ids,
                    cutoff_ms,
                    i + 1,
                    taken.push(CompactionSourceSpanView { id: ids[i], span: rows[i].span, transaction_state: state }),
                )
            },
        }
    }
}

/// Picks the rows of a log that can be compacted; each row has the id at its place in `ids`.
pub fn pick_sources(rows: &Vec<SpanRow>, ids: &Vec<i64>, cutoff_ms: i64) -> (r: Result<Vec<CompactionSourceSpan>, ControlError>)
    requires
        ids@.len() == rows@.len(),
    ensures
        error::outcome(r) == rows_compactable(rows.deep_view(), ids@, cutoff_ms, 0, Seq::empty()),
{
    let ghost all = rows.deep_view();
    let ghost want = rows_compactable(all, ids@, cutoff_ms, 0, Seq::empty());
    let mut taken: Vec<CompactionSourceSpan> = Vec::new();
    assert(taken.deep_view() =~= Seq::empty());
    let mut i: usize = 0;
    while i < rows.len()
        invariant_except_break
            want == rows_compactable(all, ids@, cutoff_ms, i as int, taken.deep_view()),
        invariant
            i <= rows@.len(),
            ids@.len() == rows@.len(),
            all == rows.deep_view(),
            want == rows_compactable(all, ids@, cutoff_ms, 0, Seq::empty()),
        ensures
            want == Ok::<Seq<CompactionSourceSpanView>, ControlErrorView>(taken.deep_view()),
        decreases rows@.len() - i,
    {
        let row = &rows[i];
        assert(all[i as int] == row.deep_view());
        if row.span.timestamp_ms > cutoff_ms {
            break;
        }
        let state = transaction_state(row.state.as_str())?;
        if same_text(row.state.as_str(), "pending") {
            break;
        }
        let ghost before = taken.deep_view();
        let source = CompactionSourceSpan { id: ids[i], span: row.span.duplicate(), transaction_state: state };
        taken.push(source);
        assert(taken.deep_view() =~= before.push(source.deep_view()));
        i = i + 1;
    }
    Ok(taken)
}

/// Whether the rows of a plan are still as they were when the plan was made.
pub open spec fn sources_stand(planned: Seq<CompactionSourceSpanView>, current: Seq<CompactionSourceSpanView>) -> bool {
    &&& current.len() == planned.len()
    &&& forall|i: int| 0 <= i < planned.len() ==> current.contains(#[trigger] planned[i])
}

fn is_among(source: &CompactionSourceSpan, current: &Vec<CompactionSourceSpan>) -> (r: bool)
    ensures
        r == current.deep_view().contains(source.deep_view()),
{
    let ghost all = current.deep_view();
    let mut i: usize = 0;
    while i < current.len()
        invariant
            i <= current@.len(),
            all == current.deep_view(),
            forall|j: int| 0 <= j < i ==> (#[trigger] all[j]) != source.deep_view(),
        decreases current@.len() - i,
    {
        assert(all[i as int] == current@[i as int].deep_view());
        if current[i].id == source.id && current[i].transaction_state == source.transaction_state && same_span(
            &current[i].span,
            &source.span,
        ) {
            assert(all[i as int] == source.deep_view());
            return true;
        }
        i = i + 1;
    }
    false
}

/// Checks that the rows of a plan are still as they were when the plan was made.
pub fn check_sources(plan: &CompactionPlan, current: &Vec<CompactionSourceSpan>) -> (r: bool)
    ensures
        r == sources_stand(plan.deep_view().spans, current.deep_view()),
{
    let ghost planned = plan.spans.deep_view();
    if current.len() != plan.spans.len() {
        return false;
    }
    let mut i: usize = 0;
    while i < plan.spans.len()
        invariant
            i <= plan.spans@.len(),
            planned == plan.spans.deep_view(),
            forall|j: int| 0 <= j < i ==> current.deep_view().contains(#[trigger] planned[j]),
        decreases plan.spans@.len() - i,
    {
        assert(planned[i as int] == plan.spans@[i as int].deep_view());
        if !is_among(&plan.spans[i], current) {
            return false;
        }
        i = i + 1;
    }
    true
}

/// Every name of a transaction state is read back as that state.
pub proof fn state_names_round_trip(state: CompactionTransactionState)
    ensures
        state_named(name_of(state)) == Some(state),
{
    reveal_strlit("visible");
    reveal_strlit("pending");
    reveal_strlit("committed");
    reveal_strlit("aborted");
    assert("visible"@.len() == 7 && "visible"@[0] == 'v');
    assert("pending"@.len() == 7 && "pending"@[0] == 'p');
    assert("committed"@.len() == 9);
    assert("aborted"@.len() == 7 && "aborted"@[0] == 'a');
}

/// A deletion of records never moves the start of a log back, never past its end, and never past the
/// first record of an open transaction unless the start lay there before.
pub proof fn starts_move_forward(p: PartitionKeyView, before_offset: i64, next_offset: i64, log_start_offset: i64, first_open: Option<i64>)
    requires
        log_start_offset <= next_offset,
        new_start(p, before_offset, next_offset, log_start_offset, first_open) is Ok,
    ensures
        ({
            let start = new_start(p, before_offset, next_offset, log_start_offset, first_open)->Ok_0;
            &&& log_start_offset <= start <= next_offset
            &&& first_open is Some && log_start_offset <= first_open->0 ==> start <= first_open->0
        }),
{
}

} // verus!
