//! Accepting what a compaction has made.

use crate::classic_barrier::same_bytes;
use crate::compaction::{
    CompactedObject, CompactedObjectView, CompactedSpanDraft, CompactedSpanDraftView, CompactionPlan,
    CompactionPlanView, CompactionSourceSpan, CompactionSourceSpanView,
};
use crate::error;
use crate::error::{ControlError, ControlErrorView};
use crate::log_append;
use crate::log_objects;
use crate::log_objects::{keep_until, mentions};
use crate::log_types::{
    LogState, LogStateView, MemoryPartitionView, ObjectRef, ObjectRefView, ProducerBatch, SpanIntegrity,
    SpanIntegrityView, StoredSpan, StoredSpanView,
};
use crate::numbers;
use crate::numbers::saturating_sum;
use crate::sorted_map;
use crate::sorted_map::{Duplicate, SortedMap};
use crate::text::{join_three, same_text};
use vstd::prelude::*;

verus! {

/// Why a compacted span may not name its producer as it does.
pub open spec fn producer_refusal(source: Option<ProducerBatch>, replacement: Option<ProducerBatch>) -> Option<ControlErrorView> {
    let kept = match (source, replacement) {
        (None, None) => true,
        (Some(source), Some(replacement)) => source.producer_id == replacement.producer_id && source.producer_epoch
            == replacement.producer_epoch,
        _ => false,
    };
    if kept {
        None
    } else {
        Some(ControlErrorView::InvalidRequest("compaction changed producer identity"@))
    }
}

/// Checks that a compacted span keeps the producer of its source.
pub fn validate_producer(source: Option<ProducerBatch>, replacement: Option<ProducerBatch>) -> (r: Result<(), ControlError>)
    ensures
        error::outcome(r) == (match producer_refusal(source, replacement) {
            Some(refusal) => Err(refusal),
            None => Ok(()),
        }),
{
    let kept = match (source, replacement) {
        (None, None) => true,
        (Some(source), Some(replacement)) => source.producer_id == replacement.producer_id && source.producer_epoch
            == replacement.producer_epoch,
        _ => false,
    };
    if kept {
        Ok(())
    } else {
        Err(ControlError::InvalidRequest("compaction changed producer identity".to_owned()))
    }
}

/// The last source under an id.
pub open spec fn source_under(sources: Seq<CompactionSourceSpanView>, id: i64) -> Option<CompactionSourceSpanView>
    decreases sources.len(),
{
    if sources.len() == 0 {
        None
    } else if sources.last().id == id {
        Some(sources.last())
    } else {
        source_under(sources.drop_last(), id)
    }
}

fn find_source<'a>(sources: &'a Vec<CompactionSourceSpan>, id: i64) -> (r: Option<&'a CompactionSourceSpan>)
    ensures
        match r {
            Some(source) => source_under(sources.deep_view(), id) == Some(source.deep_view()),
            None => source_under(sources.deep_view(), id) is None,
        },
{
    let ghost all = sources.deep_view();
    let mut i: usize = sources.len();
    assert(all.take(i as int) =~= all);
    while i > 0
        invariant
            i <= sources@.len(),
            all == sources.deep_view(),
            source_under(all, id) == source_under(all.take(i as int), id),
        decreases i,
    {
        i = i - 1;
        proof {
            sorted_map::prefix_grows(all, i as int);
            assert(all[i as int] == sources@[i as int].deep_view());
        }
        if sources[i].id == id {
            return Some(&sources[i]);
        }
    }
    None
}

/// What the replacements that were looked at so far have used up.
pub struct Used {
    pub object_keys: Set<Seq<char>>,
    pub sources: Set<i64>,
    pub base_offsets: Set<i64>,
}

/// Whether a compacted span lies within its source and within its object, behind `prior_end`, and
/// shares neither its source nor its base offset with another.
pub open spec fn draft_fits(used: Used, source: CompactionSourceSpanView, object_size: u64, prior_end: u64, draft: CompactedSpanDraftView) -> bool {
    &&& !used.sources.contains(draft.source_id)
    &&& !used.base_offsets.contains(draft.base_offset)
    &&& draft.record_count > 0
    &&& prior_end <= draft.byte_start < draft.byte_end <= object_size
    &&& source.span.base_offset <= draft.base_offset <= draft.last_offset <= source.span.last_offset
}

/// What is used up after one more compacted span, or why the span is refused.
pub open spec fn draft_checked(
    sources: Seq<CompactionSourceSpanView>,
    used: Used,
    object_size: u64,
    prior_end: u64,
    draft: CompactedSpanDraftView,
) -> Result<Used, ControlErrorView> {
    match source_under(sources, draft.source_id) {
        None => Err(ControlErrorView::InvalidRequest("compaction source is not in the lease"@)),
        Some(source) => if !draft_fits(used, source, object_size, prior_end, draft) {
            Err(ControlErrorView::InvalidRequest("compacted span has invalid byte or offset bounds"@))
        } else {
            match producer_refusal(source.span.producer, draft.producer) {
                Some(refusal) => Err(refusal),
                None => Ok(
                    Used {
                        sources: used.sources.insert(draft.source_id),
                        base_offsets: used.base_offsets.insert(draft.base_offset),
                        ..used
                    },
                ),
            }
        },
    }
}

/// The places of compacted spans, each behind where its bytes start.
pub open spec fn byte_places(drafts: Seq<CompactedSpanDraftView>) -> Set<(u64, usize)> {
    Set::new(|place: (u64, usize)| place.1 < drafts.len() && drafts[place.1 as int].byte_start == place.0)
}

/// The places of compacted spans in the order of their bytes.
pub open spec fn byte_order(drafts: Seq<CompactedSpanDraftView>) -> Seq<(u64, usize)> {
    sorted_map::sorted_keys::<(u64, usize)>(byte_places(drafts))
}

/// What is used up after the first `n` spans of an object, in the order of their bytes, and where
/// the last of them ends.
pub open spec fn drafts_checked(
    sources: Seq<CompactionSourceSpanView>,
    used: Used,
    object: CompactedObjectView,
    order: Seq<(u64, usize)>,
    n: nat,
) -> Result<(Used, u64), ControlErrorView>
    decreases n,
{
    if n == 0 {
        Ok((used, 0u64))
    } else {
        match drafts_checked(sources, used, object, order, (n - 1) as nat) {
            Err(refusal) => Err(refusal),
            Ok((before, prior_end)) => {
                let draft = object.spans[order[n - 1].1 as int];
                match draft_checked(sources, before, object.object.size, prior_end, draft) {
                    Err(refusal) => Err(refusal),
                    Ok(after) => Ok((after, draft.byte_end)),
                }
            },
        }
    }
}

/// What is used up after one more object, or why the object is refused.
pub open spec fn object_checked(sources: Seq<CompactionSourceSpanView>, used: Used, object: CompactedObjectView) -> Result<Used, ControlErrorView> {
    if object.spans.len() == 0 || used.object_keys.contains(object.object.key) {
        Err(ControlErrorView::InvalidRequest("each compacted object must be unique and contain spans"@))
    } else {
        let order = byte_order(object.spans);
        match drafts_checked(
            sources,
            Used { object_keys: used.object_keys.insert(object.object.key), ..used },
            object,
            order,
            order.len(),
        ) {
            Err(refusal) => Err(refusal),
            Ok((after, _)) => Ok(after),
        }
    }
}

/// What is used up after the first `n` objects.
pub open spec fn objects_checked(sources: Seq<CompactionSourceSpanView>, objects: Seq<CompactedObjectView>, n: nat) -> Result<
    Used,
    ControlErrorView,
>
    decreases n,
{
    if n == 0 {
        Ok(Used { object_keys: Set::empty(), sources: Set::empty(), base_offsets: Set::empty() })
    } else {
        match objects_checked(sources, objects, (n - 1) as nat) {
            Err(refusal) => Err(refusal),
            Ok(before) => object_checked(sources, before, objects[n - 1]),
        }
    }
}

/// Whether each source starts after the one before it.
pub open spec fn in_order(sources: Seq<CompactionSourceSpanView>) -> bool {
    forall|i: int, j: int| 0 <= i < j < sources.len() ==> (#[trigger] sources[i]).span.base_offset < (#[trigger] sources[j]).span.base_offset
}

fn is_in_order(sources: &Vec<CompactionSourceSpan>) -> (r: bool)
    ensures
        r == in_order(sources.deep_view()),
{
    let ghost all = sources.deep_view();
    let mut n: usize = 1;
    while n < sources.len()
        invariant
            1 <= n,
            n <= sources@.len() || n == 1,
            all == sources.deep_view(),
            forall|i: int, j: int| 0 <= i < j < n && j < all.len() ==> (#[trigger] all[i]).span.base_offset < (#[trigger] all[j]).span.base_offset,
        decreases sources@.len() - n,
    {
        assert(all[n - 1] == sources@[n - 1].deep_view());
        assert(all[n as int] == sources@[n as int].deep_view());
        if sources[n - 1].span.base_offset >= sources[n].span.base_offset {
            return false;
        }
        n = n + 1;
    }
    true
}

/// Whether a plan has sources in order and ends where the last of them does.
pub open spec fn plan_holds(plan: CompactionPlanView) -> bool {
    plan.spans.len() > 0 && plan.end_offset == plan.spans.last().span.last_offset && in_order(plan.spans)
}

/// Why replacements do not fit a plan.
pub open spec fn replacement_refusal(plan: CompactionPlanView, objects: Seq<CompactedObjectView>) -> Option<ControlErrorView> {
    if !plan_holds(plan) {
        Some(ControlErrorView::InvalidRequest("compaction plan has invalid source ordering"@))
    } else {
        match objects_checked(plan.spans, objects, objects.len()) {
            Err(refusal) => Some(refusal),
            Ok(_) => None,
        }
    }
}

/// Once an object is refused, all are.
proof fn objects_refused_early(sources: Seq<CompactionSourceSpanView>, objects: Seq<CompactedObjectView>, n: nat, m: nat)
    requires
        n <= m,
        objects_checked(sources, objects, n) is Err,
    ensures
        objects_checked(sources, objects, m) == objects_checked(sources, objects, n),
    decreases m,
{
    if n < m {
        objects_refused_early(sources, objects, n, (m - 1) as nat);
    }
}

/// Once a span is refused, its object is.
proof fn drafts_refused_early(
    sources: Seq<CompactionSourceSpanView>,
    used: Used,
    object: CompactedObjectView,
    order: Seq<(u64, usize)>,
    n: nat,
    m: nat,
)
    requires
        n <= m,
        drafts_checked(sources, used, object, order, n) is Err,
    ensures
        drafts_checked(sources, used, object, order, m) == drafts_checked(sources, used, object, order, n),
    decreases m,
{
    if n < m {
        drafts_refused_early(sources, used, object, order, n, (m - 1) as nat);
    }
}

/// The sets of what is used up.
struct Tally {
    object_keys: SortedMap<String, ()>,
    sources: SortedMap<i64, ()>,
    base_offsets: SortedMap<i64, ()>,
}

impl Tally {
    closed spec fn used(&self) -> Used {
        Used {
            object_keys: self.object_keys.deep_view().dom(),
            sources: self.sources.deep_view().dom(),
            base_offsets: self.base_offsets.deep_view().dom(),
        }
    }
}

fn sort_drafts(drafts: &Vec<CompactedSpanDraft>) -> (r: Vec<(u64, usize)>)
    ensures
        r.deep_view() == byte_order(drafts.deep_view()),
        r.deep_view().to_set() == byte_places(drafts.deep_view()),
{
    let ghost all = drafts.deep_view();
    let mut order: SortedMap<(u64, usize), ()> = SortedMap::new();
    let mut i: usize = 0;
    while i < drafts.len()
        invariant
            i <= drafts@.len(),
            all == drafts.deep_view(),
            forall|place: (u64, usize)| #[trigger] order.deep_view().contains_key(place) <==> byte_places(all).contains(place) && place.1 < i,
        decreases drafts@.len() - i,
    {
        assert(all[i as int] == drafts@[i as int].deep_view());
        order.insert((drafts[i].byte_start, i), ());
        i = i + 1;
    }
    assert(order.deep_view().dom() =~= byte_places(all));
    order.keys()
}

/// Checks one compacted span.
fn check_draft(sources: &Vec<CompactionSourceSpan>, tally: &mut Tally, object_size: u64, prior_end: u64, draft: &CompactedSpanDraft) -> (r: Result<
    (),
    ControlError,
>)
    ensures
        match draft_checked(sources.deep_view(), old(tally).used(), object_size, prior_end, draft.deep_view()) {
            Ok(after) => r is Ok && final(tally).used() == after,
            Err(refusal) => r is Err && r->Err_0.deep_view() == refusal,
        },
{
    let source = match find_source(sources, draft.source_id) {
        Some(source) => source,
        None => return Err(ControlError::InvalidRequest("compaction source is not in the lease".to_owned())),
    };
    if tally.sources.contains_key(&draft.source_id) || tally.base_offsets.contains_key(&draft.base_offset) || draft.record_count <= 0
        || draft.byte_start >= draft.byte_end || draft.byte_end > object_size || draft.byte_start < prior_end || draft.base_offset
        < source.span.base_offset || draft.last_offset > source.span.last_offset || draft.base_offset > draft.last_offset {
        return Err(ControlError::InvalidRequest("compacted span has invalid byte or offset bounds".to_owned()));
    }
    match validate_producer(source.span.producer, draft.producer) {
        Ok(_) => {},
        Err(refusal) => return Err(refusal),
    }
    let ghost used = tally.used();
    tally.sources.insert(draft.source_id, ());
    tally.base_offsets.insert(draft.base_offset, ());
    assert(tally.sources.deep_view().dom() =~= used.sources.insert(draft.source_id));
    assert(tally.base_offsets.deep_view().dom() =~= used.base_offsets.insert(draft.base_offset));
    Ok(())
}

/// Checks the compacted spans of an object.
fn check_object(sources: &Vec<CompactionSourceSpan>, tally: &mut Tally, object: &CompactedObject) -> (r: Result<(), ControlError>)
    ensures
        match object_checked(sources.deep_view(), old(tally).used(), object.deep_view()) {
            Ok(after) => r is Ok && final(tally).used() == after,
            Err(refusal) => r is Err && r->Err_0.deep_view() == refusal,
        },
{
    let ghost from = sources.deep_view();
    let ghost o = object.deep_view();
    let ghost all = object.spans.deep_view();
    assert(all.len() == object.spans@.len());
    if object.spans.len() == 0 || tally.object_keys.contains_key(&object.object.key) {
        return Err(ControlError::InvalidRequest("each compacted object must be unique and contain spans".to_owned()));
    }
    let ghost used = tally.used();
    tally.object_keys.insert(object.object.key.clone(), ());
    let ghost entered = Used { object_keys: used.object_keys.insert(o.object.key), ..used };
    assert(tally.object_keys.deep_view().dom() =~= used.object_keys.insert(o.object.key));
    let order = sort_drafts(&object.spans);
    let ghost placed = order.deep_view();
    let mut prior_end: u64 = 0;
    let mut n: usize = 0;
    while n < order.len()
        invariant
            n <= order@.len(),
            from == sources.deep_view(),
            o == object.deep_view(),
            all == object.spans.deep_view(),
            placed == order.deep_view(),
            placed == byte_order(all),
            placed.to_set() == byte_places(all),
            all.len() > 0,
            used == old(tally).used(),
            !used.object_keys.contains(o.object.key),
            entered == (Used { object_keys: used.object_keys.insert(o.object.key), ..used }),
            drafts_checked(from, entered, o, placed, n as nat) == Ok::<(Used, u64), ControlErrorView>((tally.used(), prior_end)),
        decreases order@.len() - n,
    {
        let at: usize = order[n].1;
        proof {
            assert(placed[n as int] == order@[n as int].deep_view());
            assert(placed.to_set().contains(placed[n as int]));
            assert(all[at as int] == object.spans@[at as int].deep_view());
        }
        match check_draft(sources, tally, object.object.size, prior_end, &object.spans[at]) {
            Ok(_) => {},
            Err(refusal) => {
                proof {
                    drafts_refused_early(from, entered, o, placed, (n + 1) as nat, placed.len());
                }
                return Err(refusal);
            },
        }
        prior_end = object.spans[at].byte_end;
        n = n + 1;
    }
    assert(placed.len() == order@.len());
    Ok(())
}

/// Checks that replacements fit a plan.
pub fn validate_replacements(plan: &CompactionPlan, objects: &Vec<CompactedObject>) -> (r: Result<(), ControlError>)
    ensures
        error::outcome(r) == (match replacement_refusal(plan.deep_view(), objects.deep_view()) {
            Some(refusal) => Err(refusal),
            None => Ok(()),
        }),
{
    let ghost p = plan.deep_view();
    let ghost from = plan.spans.deep_view();
    let ghost all = objects.deep_view();
    assert(from.len() == plan.spans@.len());
    assert(all.len() == objects@.len());
    let mut holds = false;
    if plan.spans.len() > 0 {
        let last: usize = plan.spans.len() - 1;
        assert(from[last as int] == plan.spans@[last as int].deep_view());
        holds = plan.end_offset == plan.spans[last].span.last_offset;
    }
    let holds = holds && is_in_order(&plan.spans);
    assert(holds == plan_holds(p));
    if !holds {
        return Err(ControlError::InvalidRequest("compaction plan has invalid source ordering".to_owned()));
    }
    let mut tally = Tally { object_keys: SortedMap::new(), sources: SortedMap::new(), base_offsets: SortedMap::new() };
    assert(tally.object_keys.deep_view().dom() =~= Set::empty());
    assert(tally.sources.deep_view().dom() =~= Set::empty());
    assert(tally.base_offsets.deep_view().dom() =~= Set::empty());
    let mut n: usize = 0;
    while n < objects.len()
        invariant
            n <= objects@.len(),
            p == plan.deep_view(),
            plan_holds(p),
            from == plan.spans.deep_view(),
            all == objects.deep_view(),
            all.len() == objects@.len(),
            objects_checked(from, all, n as nat) == Ok::<Used, ControlErrorView>(tally.used()),
        decreases objects@.len() - n,
    {
        assert(all[n as int] == objects@[n as int].deep_view());
        match check_object(&plan.spans, &mut tally, &objects[n]) {
            Ok(_) => {},
            Err(refusal) => {
                proof {
                    objects_refused_early(from, all, (n + 1) as nat, all.len());
                }
                return Err(refusal);
            },
        }
        n = n + 1;
    }
    Ok(())
}

/// The last span that starts at an offset.
pub open spec fn span_at(spans: Seq<StoredSpanView>, base: i64) -> Option<StoredSpanView>
    decreases spans.len(),
{
    if spans.len() == 0 {
        None
    } else if spans.last().base_offset == base {
        Some(spans.last())
    } else {
        span_at(spans.drop_last(), base)
    }
}

/// Whether a log no longer holds every source as the plan has it.
pub open spec fn is_outdated(spans: Seq<StoredSpanView>, sources: Seq<CompactionSourceSpanView>) -> bool {
    exists|i: int| 0 <= i < sources.len() && span_at(spans, (#[trigger] sources[i]).id) != Some(sources[i].span)
}

/// The first of some objects that is stored already.
pub open spec fn first_stored(objects: Map<Seq<char>, ObjectRefView>, compacted: Seq<CompactedObjectView>) -> Option<Seq<char>>
    decreases compacted.len(),
{
    if compacted.len() == 0 {
        None
    } else if objects.contains_key(compacted[0].object.key) {
        Some(compacted[0].object.key)
    } else {
        first_stored(objects, compacted.drop_first())
    }
}

/// A compacted span as it is stored: time and transaction are those of its source.
pub open spec fn replacement(plan: CompactionPlanView, object_key: Seq<char>, draft: CompactedSpanDraftView) -> StoredSpanView {
    let source = source_under(plan.spans, draft.source_id)->0;
    StoredSpanView {
        partition: plan.partition,
        object_key,
        byte_start: draft.byte_start,
        byte_end: draft.byte_end,
        base_offset: draft.base_offset,
        last_offset: draft.last_offset,
        record_count: draft.record_count,
        timestamp_ms: source.span.timestamp_ms,
        integrity: SpanIntegrityView { checksum: Some(draft.checksum) },
        producer: draft.producer,
        transaction_id: source.span.transaction_id,
        offsets_preserved: true,
    }
}

/// The compacted spans of an object as they are stored.
pub open spec fn replacements_in(plan: CompactionPlanView, object: CompactedObjectView) -> Seq<StoredSpanView> {
    Seq::new(object.spans.len(), |i: int| replacement(plan, object.object.key, object.spans[i]))
}

/// The compacted spans of some objects as they are stored.
pub open spec fn replacements(plan: CompactionPlanView, objects: Seq<CompactedObjectView>) -> Seq<StoredSpanView>
    decreases objects.len(),
{
    if objects.len() == 0 {
        Seq::empty()
    } else {
        replacements(plan, objects.drop_last()) + replacements_in(plan, objects.last())
    }
}

/// Whether a span is a source of a plan.
pub open spec fn is_source(sources: Seq<CompactionSourceSpanView>, base: i64) -> bool {
    exists|i: int| 0 <= i < sources.len() && (#[trigger] sources[i]).id == base
}

/// The spans that are no source of a plan.
pub open spec fn others(spans: Seq<StoredSpanView>, sources: Seq<CompactionSourceSpanView>) -> Seq<StoredSpanView>
    decreases spans.len(),
{
    if spans.len() == 0 {
        spans
    } else if is_source(sources, spans.last().base_offset) {
        others(spans.drop_last(), sources)
    } else {
        others(spans.drop_last(), sources).push(spans.last())
    }
}

/// The places of spans, each behind the offset at which the span starts.
pub open spec fn offset_places(spans: Seq<StoredSpanView>) -> Set<(i64, usize)> {
    Set::new(|place: (i64, usize)| place.1 < spans.len() && spans[place.1 as int].base_offset == place.0)
}

/// Spans in the order of their offsets.
pub open spec fn by_offset(spans: Seq<StoredSpanView>) -> Seq<StoredSpanView> {
    let order = sorted_map::sorted_keys::<(i64, usize)>(offset_places(spans));
    Seq::new(order.len(), |i: int| spans[order[i].1 as int])
}

/// Whether two spans start at one offset.
pub open spec fn has_twins(spans: Seq<StoredSpanView>) -> bool {
    exists|i: int, j: int| 0 <= i < j < spans.len() && (#[trigger] spans[i]).base_offset == (#[trigger] spans[j]).base_offset
}

/// The objects of the sources of a plan.
pub open spec fn source_objects(sources: Seq<CompactionSourceSpanView>) -> Set<Seq<char>> {
    Set::new(|k: Seq<char>| exists|i: int| 0 <= i < sources.len() && (#[trigger] sources[i]).span.object_key == k)
}

/// The stored objects with compacted ones.
pub open spec fn with_objects(objects: Map<Seq<char>, ObjectRefView>, compacted: Seq<CompactedObjectView>) -> Map<Seq<char>, ObjectRefView>
    decreases compacted.len(),
{
    if compacted.len() == 0 {
        objects
    } else {
        with_objects(objects, compacted.drop_last()).insert(compacted.last().object.key, compacted.last().object)
    }
}

/// What is noted of objects, without compacted ones.
pub open spec fn without_objects(notes: Map<Seq<char>, i64>, compacted: Seq<CompactedObjectView>) -> Map<Seq<char>, i64>
    decreases compacted.len(),
{
    if compacted.len() == 0 {
        notes
    } else {
        without_objects(notes, compacted.drop_last()).remove(compacted.last().object.key)
    }
}

/// The spans of a log after compacted ones have taken the place of their sources.
pub open spec fn replaced(spans: Seq<StoredSpanView>, plan: CompactionPlanView, objects: Seq<CompactedObjectView>) -> Seq<StoredSpanView> {
    others(spans, plan.spans) + replacements(plan, objects)
}

/// The state after a compaction has been accepted.
pub open spec fn compaction_applied(
    s: LogStateView,
    plan: CompactionPlanView,
    objects: Seq<CompactedObjectView>,
    recheck_at_ms: Option<i64>,
    now_ms: i64,
) -> LogStateView {
    let log = s.partitions[plan.partition];
    let after = MemoryPartitionView {
        spans: by_offset(replaced(log.spans, plan, objects)),
        compaction_last_offset: if log.compaction_last_offset < plan.end_offset {
            plan.end_offset
        } else {
            log.compaction_last_offset
        },
        compaction_recheck_at_ms: recheck_at_ms,
        compaction_lease: None,
        ..log
    };
    let partitions = s.partitions.insert(plan.partition, after);
    let unreferenced = without_objects(s.unreferenced_objects, objects);
    let old = source_objects(plan.spans);
    LogStateView {
        partitions,
        objects: with_objects(s.objects, objects),
        staged_objects: without_objects(s.staged_objects, objects),
        object_delete_after: log_objects::deferred(
            without_objects(s.object_delete_after, objects),
            old,
            numbers::clamped_i64(now_ms + plan.file_delete_delay_ms) as i64,
        ),
        unreferenced_objects: Map::new(
            |k: Seq<char>| unreferenced.contains_key(k) || (old.contains(k) && !log_objects::refers_to(partitions, k)),
            |k: Seq<char>|
                if unreferenced.contains_key(k) {
                    unreferenced[k]
                } else {
                    now_ms
                },
        ),
        ..s
    }
}

/// The state after the result of a compaction has been handed in, and whether it was accepted: it
/// is not where the lease is lost or the log has changed.
pub open spec fn compaction_committed(
    s: LogStateView,
    plan: CompactionPlanView,
    objects: Seq<CompactedObjectView>,
    recheck_at_ms: Option<i64>,
    now_ms: i64,
) -> (LogStateView, Result<bool, ControlErrorView>) {
    let p = plan.partition;
    if !s.partitions.contains_key(p) || s.partitions[p].compaction_lease is None || (s.partitions[p].compaction_lease->0).0 != plan.lease_id {
        (s, Ok(false))
    } else if is_outdated(s.partitions[p].spans, plan.spans) {
        (
            LogStateView {
                partitions: s.partitions.insert(p, MemoryPartitionView { compaction_lease: None, ..s.partitions[p] }),
                ..s
            },
            Ok(false),
        )
    } else {
        match replacement_refusal(plan, objects) {
            Some(refusal) => (s, Err(refusal)),
            None => match first_stored(s.objects, objects) {
                Some(key) => (s, Err(ControlErrorView::InvalidRequest(log_append::already_committed_text(key)))),
                None => if has_twins(replaced(s.partitions[p].spans, plan, objects)) {
                    (s, Err(ControlErrorView::InvalidRequest("compaction created duplicate base offsets"@)))
                } else {
                    (compaction_applied(s, plan, objects, recheck_at_ms, now_ms), Ok(true))
                },
            },
        }
    }
}

fn same_batch(a: Option<ProducerBatch>, b: Option<ProducerBatch>) -> (r: bool)
    ensures
        r == (a == b),
{
    match (a, b) {
        (None, None) => true,
        (Some(a), Some(b)) => a == b,
        _ => false,
    }
}

fn same_id(a: Option<u128>, b: Option<u128>) -> (r: bool)
    ensures
        r == (a == b),
{
    match (a, b) {
        (None, None) => true,
        (Some(a), Some(b)) => a == b,
        _ => false,
    }
}

fn same_checksum(a: &Option<Vec<u8>>, b: &Option<Vec<u8>>) -> (r: bool)
    ensures
        r == (a.deep_view() == b.deep_view()),
{
    match (a, b) {
        (None, None) => true,
        (Some(a), Some(b)) => same_bytes(a, b),
        _ => false,
    }
}

pub(crate) fn same_span(a: &StoredSpan, b: &StoredSpan) -> (r: bool)
    ensures
        r == (a.deep_view() == b.deep_view()),
{
    same_text(a.partition.topic.as_str(), b.partition.topic.as_str()) && a.partition.partition == b.partition.partition && same_text(
        a.object_key.as_str(),
        b.object_key.as_str(),
    ) && a.byte_start == b.byte_start && a.byte_end == b.byte_end && a.base_offset == b.base_offset && a.last_offset == b.last_offset
        && a.record_count == b.record_count && a.timestamp_ms == b.timestamp_ms && same_checksum(
        &a.integrity.checksum,
        &b.integrity.checksum,
    ) && same_batch(a.producer, b.producer) && same_id(a.transaction_id, b.transaction_id) && a.offsets_preserved == b.offsets_preserved
}

fn find_span<'a>(spans: &'a Vec<StoredSpan>, base: i64) -> (r: Option<&'a StoredSpan>)
    ensures
        match r {
            Some(span) => span_at(spans.deep_view(), base) == Some(span.deep_view()),
            None => span_at(spans.deep_view(), base) is None,
        },
{
    let ghost all = spans.deep_view();
    let mut i: usize = spans.len();
    assert(all.take(i as int) =~= all);
    while i > 0
        invariant
            i <= spans@.len(),
            all == spans.deep_view(),
            span_at(all, base) == span_at(all.take(i as int), base),
        decreases i,
    {
        i = i - 1;
        proof {
            sorted_map::prefix_grows(all, i as int);
            assert(all[i as int] == spans@[i as int].deep_view());
        }
        if spans[i].base_offset == base {
            return Some(&spans[i]);
        }
    }
    None
}

fn plan_is_outdated(spans: &Vec<StoredSpan>, sources: &Vec<CompactionSourceSpan>) -> (r: bool)
    ensures
        r == is_outdated(spans.deep_view(), sources.deep_view()),
{
    let ghost log = spans.deep_view();
    let ghost all = sources.deep_view();
    let mut i: usize = 0;
    while i < sources.len()
        invariant
            i <= sources@.len(),
            log == spans.deep_view(),
            all == sources.deep_view(),
            forall|j: int| 0 <= j < i ==> span_at(log, (#[trigger] all[j]).id) == Some(all[j].span),
        decreases sources@.len() - i,
    {
        assert(all[i as int] == sources@[i as int].deep_view());
        let unchanged = match find_span(spans, sources[i].id) {
            Some(span) => same_span(span, &sources[i].span),
            None => false,
        };
        if !unchanged {
            return true;
        }
        i = i + 1;
    }
    false
}

fn find_stored<'a>(objects: &SortedMap<String, ObjectRef>, compacted: &'a Vec<CompactedObject>) -> (r: Option<&'a String>)
    ensures
        match r {
            Some(key) => first_stored(objects.deep_view(), compacted.deep_view()) == Some(key@),
            None => first_stored(objects.deep_view(), compacted.deep_view()) is None,
        },
{
    let ghost m = objects.deep_view();
    let ghost all = compacted.deep_view();
    let mut i: usize = 0;
    assert(all.skip(0) =~= all);
    while i < compacted.len()
        invariant
            i <= compacted@.len(),
            m == objects.deep_view(),
            all == compacted.deep_view(),
            first_stored(m, all) == first_stored(m, all.skip(i as int)),
        decreases compacted@.len() - i,
    {
        assert(all.skip(i as int)[0] == compacted@[i as int].deep_view());
        assert(all.skip(i as int).drop_first() =~= all.skip(i + 1));
        if objects.contains_key(&compacted[i].object.key) {
            return Some(&compacted[i].object.key);
        }
        i = i + 1;
    }
    None
}

fn names_source(sources: &Vec<CompactionSourceSpan>, base: i64) -> (r: bool)
    ensures
        r == is_source(sources.deep_view(), base),
{
    let ghost all = sources.deep_view();
    let mut i: usize = 0;
    while i < sources.len()
        invariant
            i <= sources@.len(),
            all == sources.deep_view(),
            forall|j: int| 0 <= j < i ==> (#[trigger] all[j]).id != base,
        decreases sources@.len() - i,
    {
        assert(all[i as int] == sources@[i as int].deep_view());
        if sources[i].id == base {
            return true;
        }
        i = i + 1;
    }
    false
}

fn keep_others(spans: &Vec<StoredSpan>, sources: &Vec<CompactionSourceSpan>) -> (r: Vec<StoredSpan>)
    ensures
        r.deep_view() == others(spans.deep_view(), sources.deep_view()),
{
    let ghost all = spans.deep_view();
    let ghost from = sources.deep_view();
    let mut r: Vec<StoredSpan> = Vec::new();
    let mut i: usize = 0;
    assert(r.deep_view() =~= Seq::empty());
    assert(all.take(0) =~= Seq::empty());
    while i < spans.len()
        invariant
            i <= spans@.len(),
            all == spans.deep_view(),
            from == sources.deep_view(),
            r.deep_view() == others(all.take(i as int), from),
        decreases spans@.len() - i,
    {
        proof {
            sorted_map::prefix_grows(all, i as int);
            assert(all[i as int] == spans@[i as int].deep_view());
        }
        if !names_source(sources, spans[i].base_offset) {
            let ghost before = r.deep_view();
            r.push(spans[i].duplicate());
            assert(r.deep_view() =~= before.push(all[i as int]));
        }
        i = i + 1;
    }
    assert(all.take(i as int) =~= all);
    r
}

fn have_twins(spans: &Vec<StoredSpan>) -> (r: bool)
    ensures
        r == has_twins(spans.deep_view()),
{
    let ghost all = spans.deep_view();
    let mut seen: SortedMap<i64, ()> = SortedMap::new();
    let mut i: usize = 0;
    while i < spans.len()
        invariant
            i <= spans@.len(),
            all == spans.deep_view(),
            forall|base: i64| #[trigger] seen.deep_view().contains_key(base) <==> exists|j: int| 0 <= j < i
                && (#[trigger] all[j]).base_offset == base,
            forall|j: int, k: int| 0 <= j < k < i ==> (#[trigger] all[j]).base_offset != (#[trigger] all[k]).base_offset,
        decreases spans@.len() - i,
    {
        assert(all[i as int] == spans@[i as int].deep_view());
        let base: i64 = spans[i].base_offset;
        if seen.contains_key(&base) {
            proof {
                let j = choose|j: int| 0 <= j < i && (#[trigger] all[j]).base_offset == base;
                assert(all[j].base_offset == all[i as int].base_offset);
            }
            return true;
        }
        let ghost before = seen.deep_view();
        seen.insert(base, ());
        proof {
            assert forall|other: i64| #[trigger] seen.deep_view().contains_key(other) <==> exists|j: int| 0 <= j < i + 1
                && (#[trigger] all[j]).base_offset == other by {
                if other == base {
                    assert(all[i as int].base_offset == other);
                }
                if before.contains_key(other) {
                    let j = choose|j: int| 0 <= j < i && (#[trigger] all[j]).base_offset == other;
                    assert(all[j].base_offset == other);
                }
                if exists|j: int| 0 <= j < i + 1 && (#[trigger] all[j]).base_offset == other {
                    let j = choose|j: int| 0 <= j < i + 1 && (#[trigger] all[j]).base_offset == other;
                    if j < i {
                        assert(before.contains_key(other));
                    }
                }
            }
        }
        i = i + 1;
    }
    false
}

fn sort_spans(spans: &Vec<StoredSpan>) -> (r: Vec<StoredSpan>)
    ensures
        r.deep_view() == by_offset(spans.deep_view()),
{
    let ghost all = spans.deep_view();
    let ghost places = offset_places(all);
    let mut order: SortedMap<(i64, usize), ()> = SortedMap::new();
    let mut i: usize = 0;
    while i < spans.len()
        invariant
            i <= spans@.len(),
            all == spans.deep_view(),
            places == offset_places(all),
            forall|place: (i64, usize)| #[trigger] order.deep_view().contains_key(place) <==> places.contains(place) && place.1 < i,
        decreases spans@.len() - i,
    {
        assert(all[i as int] == spans@[i as int].deep_view());
        order.insert((spans[i].base_offset, i), ());
        i = i + 1;
    }
    assert(order.deep_view().dom() =~= places);
    let keys = order.keys();
    let ghost listed = keys.deep_view();
    let mut r: Vec<StoredSpan> = Vec::new();
    let mut n: usize = 0;
    while n < keys.len()
        invariant
            n <= keys@.len(),
            r@.len() == n,
            all == spans.deep_view(),
            places == offset_places(all),
            listed == keys.deep_view(),
            listed.to_set() == places,
            forall|j: int| 0 <= j < n ==> (#[trigger] r@[j]).deep_view() == all[listed[j].1 as int],
        decreases keys@.len() - n,
    {
        assert(listed[n as int] == keys@[n as int].deep_view());
        assert(listed.to_set().contains(listed[n as int]));
        let at: usize = keys[n].1;
        assert(all[at as int] == spans@[at as int].deep_view());
        r.push(spans[at].duplicate());
        n = n + 1;
    }
    assert(r.deep_view() =~= by_offset(all));
    r
}

/// Spans that were accepted have a source.
proof fn accepted_drafts_have_sources(
    sources: Seq<CompactionSourceSpanView>,
    used: Used,
    object: CompactedObjectView,
    order: Seq<(u64, usize)>,
    n: nat,
    k: int,
)
    requires
        drafts_checked(sources, used, object, order, n) is Ok,
        0 <= k < n,
    ensures
        source_under(sources, object.spans[order[k].1 as int].source_id) is Some,
    decreases n,
{
    if k < n - 1 {
        accepted_drafts_have_sources(sources, used, object, order, (n - 1) as nat, k);
    }
}

/// Spans of objects that were accepted have a source.
proof fn accepted_objects_have_sources(sources: Seq<CompactionSourceSpanView>, objects: Seq<CompactedObjectView>, n: nat, i: int, j: int)
    requires
        objects_checked(sources, objects, n) is Ok,
        0 <= i < n,
        0 <= j < objects[i].spans.len() <= usize::MAX,
    ensures
        source_under(sources, objects[i].spans[j].source_id) is Some,
    decreases n,
{
    if i < n - 1 {
        accepted_objects_have_sources(sources, objects, (n - 1) as nat, i, j);
    } else {
        let object = objects[i];
        let order = byte_order(object.spans);
        let place = (object.spans[j].byte_start, j as usize);
        every_draft_is_placed(object.spans);
        assert(byte_places(object.spans).contains(place));
        assert(order.to_set().contains(place));
        let k = choose|k: int| 0 <= k < order.len() && order[k] == place;
        let before = objects_checked(sources, objects, (n - 1) as nat)->Ok_0;
        accepted_drafts_have_sources(
            sources,
            Used { object_keys: before.object_keys.insert(object.object.key), ..before },
            object,
            order,
            order.len(),
            k,
        );
    }
}

/// Every compacted span of an object has a place in the order of their bytes.
proof fn every_draft_is_placed(drafts: Seq<CompactedSpanDraftView>)
    requires
        drafts.len() <= usize::MAX,
    ensures
        byte_order(drafts).to_set() == byte_places(drafts),
        sorted_map::strictly_sorted::<(u64, usize)>(byte_order(drafts)),
{
    let listed = Seq::new(drafts.len(), |i: int| (drafts[i].byte_start, i as usize));
    assert forall|place: (u64, usize)| #[trigger] listed.to_set().contains(place) <==> byte_places(drafts).contains(place) by {
        if byte_places(drafts).contains(place) {
            assert(listed[place.1 as int] == place);
        }
    }
    assert(listed.to_set() =~= byte_places(drafts));
    assert(byte_places(drafts).finite());
    sorted_map::finite_sets_are_listed::<(u64, usize)>(byte_places(drafts));
}

/// Compacted spans as they are stored.
fn replace_sources(plan: &CompactionPlan, objects: &Vec<CompactedObject>, to: &mut Vec<StoredSpan>)
    requires
        objects_checked(plan.spans.deep_view(), objects.deep_view(), objects@.len()) is Ok,
    ensures
        final(to).deep_view() == old(to).deep_view() + replacements(plan.deep_view(), objects.deep_view()),
{
    let ghost p = plan.deep_view();
    let ghost all = objects.deep_view();
    let ghost start = to.deep_view();
    let mut i: usize = 0;
    assert(all.take(0) =~= Seq::empty());
    assert(start + Seq::<StoredSpanView>::empty() =~= start);
    while i < objects.len()
        invariant
            i <= objects@.len(),
            p == plan.deep_view(),
            all == objects.deep_view(),
            objects_checked(p.spans, all, objects@.len()) is Ok,
            to.deep_view() == start + replacements(p, all.take(i as int)),
        decreases objects@.len() - i,
    {
        let object = &objects[i];
        let ghost o = all[i as int];
        let ghost before = to.deep_view();
        proof {
            assert(o == object.deep_view());
            sorted_map::prefix_grows(all, i as int);
        }
        let mut n: usize = 0;
        assert(before + replacements_in(p, o).take(0) =~= before);
        while n < object.spans.len()
            invariant
                n <= object.spans@.len(),
                i < objects@.len(),
                o == all[i as int],
                o == object.deep_view(),
                p == plan.deep_view(),
                objects_checked(p.spans, all, objects@.len()) is Ok,
                all == objects.deep_view(),
                to.deep_view() == before + replacements_in(p, o).take(n as int),
            decreases object.spans@.len() - n,
        {
            let draft = &object.spans[n];
            proof {
                assert(o.spans[n as int] == draft.deep_view());
                accepted_objects_have_sources(p.spans, all, objects@.len() as nat, i as int, n as int);
            }
            let source = find_source(&plan.spans, draft.source_id).unwrap();
            let span = StoredSpan {
                partition: plan.partition.duplicate(),
                object_key: object.object.key.clone(),
                byte_start: draft.byte_start,
                byte_end: draft.byte_end,
                base_offset: draft.base_offset,
                last_offset: draft.last_offset,
                record_count: draft.record_count,
                timestamp_ms: source.span.timestamp_ms,
                integrity: SpanIntegrity::current(draft.checksum.duplicate()),
                producer: draft.producer,
                transaction_id: source.span.transaction_id,
                offsets_preserved: true,
            };
            let ghost so_far = to.deep_view();
            assert(span.deep_view() == replacements_in(p, o)[n as int]);
            to.push(span);
            assert(to.deep_view() =~= so_far.push(replacements_in(p, o)[n as int]));
            assert(before + replacements_in(p, o).take(n + 1) =~= (before + replacements_in(p, o).take(n as int)).push(replacements_in(p, o)[n as int]));
            n = n + 1;
        }
        assert(replacements_in(p, o).take(n as int) =~= replacements_in(p, o));
        assert(start + (replacements(p, all.take(i as int)) + replacements_in(p, o)) =~= before + replacements_in(p, o));
        i = i + 1;
    }
    assert(all.take(i as int) =~= all);
}

impl LogState {
    /// Takes compacted objects into the store.
    fn store_compacted(&mut self, objects: &Vec<CompactedObject>)
        ensures
            final(self).deep_view() == (LogStateView {
                objects: with_objects(old(self).deep_view().objects, objects.deep_view()),
                staged_objects: without_objects(old(self).deep_view().staged_objects, objects.deep_view()),
                unreferenced_objects: without_objects(old(self).deep_view().unreferenced_objects, objects.deep_view()),
                object_delete_after: without_objects(old(self).deep_view().object_delete_after, objects.deep_view()),
                ..old(self).deep_view()
            }),
    {
        let ghost s = self.deep_view();
        let ghost all = objects.deep_view();
        let mut i: usize = 0;
        assert(all.take(0) =~= Seq::empty());
        while i < objects.len()
            invariant
                i <= objects@.len(),
                all == objects.deep_view(),
                self.deep_view() == (LogStateView {
                    objects: with_objects(s.objects, all.take(i as int)),
                    staged_objects: without_objects(s.staged_objects, all.take(i as int)),
                    unreferenced_objects: without_objects(s.unreferenced_objects, all.take(i as int)),
                    object_delete_after: without_objects(s.object_delete_after, all.take(i as int)),
                    ..s
                }),
            decreases objects@.len() - i,
        {
            proof {
                assert(all[i as int] == objects@[i as int].deep_view());
                sorted_map::prefix_grows(all, i as int);
            }
            let object = &objects[i].object;
            self.objects.insert(object.key.clone(), object.duplicate());
            self.staged_objects.remove(&object.key);
            self.unreferenced_objects.remove(&object.key);
            self.object_delete_after.remove(&object.key);
            i = i + 1;
        }
        assert(all.take(i as int) =~= all);
    }

    /// Notes which of some objects nothing refers to any more.
    fn note_released(&mut self, keys: &SortedMap<String, ()>, now_ms: i64)
        ensures
            final(self).deep_view() == (LogStateView {
                unreferenced_objects: Map::new(
                    |k: Seq<char>|
                        old(self).deep_view().unreferenced_objects.contains_key(k) || (keys.deep_view().dom().contains(k)
                            && !log_objects::refers_to(old(self).deep_view().partitions, k)),
                    |k: Seq<char>|
                        if old(self).deep_view().unreferenced_objects.contains_key(k) {
                            old(self).deep_view().unreferenced_objects[k]
                        } else {
                            now_ms
                        },
                ),
                ..old(self).deep_view()
            }),
    {
        let ghost s = self.deep_view();
        let ghost u = s.unreferenced_objects;
        let list = keys.keys();
        let ghost all = list.deep_view();
        let mut i: usize = 0;
        while i < list.len()
            invariant
                i <= list@.len(),
                u == s.unreferenced_objects,
                all == list.deep_view(),
                all.to_set() == keys.deep_view().dom(),
                self.deep_view() == (LogStateView { unreferenced_objects: self.unreferenced_objects.deep_view(), ..s }),
                forall|k: Seq<char>| #[trigger] self.unreferenced_objects.deep_view().contains_key(k) <==> u.contains_key(k)
                    || (all.take(i as int).to_set().contains(k) && !log_objects::refers_to(s.partitions, k)),
                forall|k: Seq<char>| #[trigger] self.unreferenced_objects.deep_view().contains_key(k)
                    ==> self.unreferenced_objects.deep_view()[k] == (if u.contains_key(k) {
                    u[k]
                } else {
                    now_ms
                }),
            decreases list@.len() - i,
        {
            proof {
                assert(all[i as int] == list@[i as int].deep_view());
                sorted_map::prefix_grows(all, i as int);
            }
            if !mentions(&self.partitions, list[i].as_str()) && !self.unreferenced_objects.contains_key(&list[i]) {
                self.unreferenced_objects.insert(list[i].clone(), now_ms);
            }
            i = i + 1;
        }
        assert(all.take(i as int) =~= all);
        assert(self.unreferenced_objects.deep_view() =~= Map::new(
            |k: Seq<char>| u.contains_key(k) || (keys.deep_view().dom().contains(k) && !log_objects::refers_to(s.partitions, k)),
            |k: Seq<char>| if u.contains_key(k) {
                u[k]
            } else {
                now_ms
            },
        ));
    }

    /// Accepts the result of a compaction, unless the lease is lost or the log has changed.
    pub fn commit_compaction(&mut self, plan: &CompactionPlan, objects: Vec<CompactedObject>, recheck_at_ms: Option<i64>, now_ms: i64) -> (r: Result<
        bool,
        ControlError,
    >)
        ensures
            (final(self).deep_view(), error::outcome(r)) == compaction_committed(
                old(self).deep_view(),
                plan.deep_view(),
                objects.deep_view(),
                recheck_at_ms,
                now_ms,
            ),
    {
        let ghost s = self.deep_view();
        let ghost p = plan.partition.deep_view();
        let ghost made = objects.deep_view();
        let (held, outdated): (bool, bool) = match self.partitions.get(&plan.partition) {
            None => (false, false),
            Some(log) => (
                match log.compaction_lease {
                    Some((lease_id, _)) => lease_id == plan.lease_id,
                    None => false,
                },
                plan_is_outdated(&log.spans, &plan.spans),
            ),
        };
        if !held {
            return Ok(false);
        }
        if outdated {
            let mut log = self.partitions.remove(&plan.partition).unwrap();
            log.compaction_lease = None;
            let ghost after = log.deep_view();
            self.partitions.insert(plan.partition.duplicate(), log);
            assert(s.partitions.remove(p).insert(p, after) =~= s.partitions.insert(p, after));
            return Ok(false);
        }
        match validate_replacements(plan, &objects) {
            Ok(_) => {},
            Err(refusal) => return Err(refusal),
        }
        assert(made.len() == objects@.len());
        if let Some(key) = find_stored(&self.objects, &objects) {
            return Err(ControlError::InvalidRequest(join_three("object ", key.as_str(), " is already committed")));
        }
        let log = self.partitions.get(&plan.partition).unwrap();
        let mut spans = keep_others(&log.spans, &plan.spans);
        replace_sources(plan, &objects, &mut spans);
        if have_twins(&spans) {
            return Err(ControlError::InvalidRequest("compaction created duplicate base offsets".to_owned()));
        }
        let sorted = sort_spans(&spans);
        self.store_compacted(&objects);
        let ghost t = self.deep_view();
        let mut log = self.partitions.remove(&plan.partition).unwrap();
        log.spans = sorted;
        if log.compaction_last_offset < plan.end_offset {
            log.compaction_last_offset = plan.end_offset;
        }
        log.compaction_recheck_at_ms = recheck_at_ms;
        log.compaction_lease = None;
        let ghost after = log.deep_view();
        self.partitions.insert(plan.partition.duplicate(), log);
        assert(s.partitions.remove(p).insert(p, after) =~= s.partitions.insert(p, after));
        let mut old_keys: SortedMap<String, ()> = SortedMap::new();
        let mut i: usize = 0;
        let ghost from = plan.spans.deep_view();
        let ghost entered = self.deep_view();
        while i < plan.spans.len()
            invariant
                i <= plan.spans@.len(),
                from == plan.spans.deep_view(),
                self.deep_view() == entered,
                forall|k: Seq<char>| #[trigger] old_keys.deep_view().dom().contains(k) <==> exists|j: int| 0 <= j < i
                    && (#[trigger] from[j]).span.object_key == k,
            decreases plan.spans@.len() - i,
        {
            assert(from[i as int] == plan.spans@[i as int].deep_view());
            let ghost before = old_keys.deep_view().dom();
            let ghost last = from[i as int].span.object_key;
            old_keys.insert(plan.spans[i].span.object_key.clone(), ());
            proof {
                assert forall|k: Seq<char>| #[trigger] old_keys.deep_view().dom().contains(k) <==> exists|j: int| 0 <= j < i + 1
                    && (#[trigger] from[j]).span.object_key == k by {
                    if k == last {
                        assert(from[i as int].span.object_key == k);
                    }
                    if before.contains(k) {
                        let j = choose|j: int| 0 <= j < i && (#[trigger] from[j]).span.object_key == k;
                        assert(from[j].span.object_key == k);
                    }
                    if exists|j: int| 0 <= j < i + 1 && (#[trigger] from[j]).span.object_key == k {
                        let j = choose|j: int| 0 <= j < i + 1 && (#[trigger] from[j]).span.object_key == k;
                        if j < i {
                            assert(before.contains(k));
                        }
                    }
                }
            }
            i = i + 1;
        }
        assert(old_keys.deep_view().dom() =~= source_objects(from));
        let delete_after: i64 = saturating_sum(now_ms, plan.file_delete_delay_ms);
        keep_until(&mut self.object_delete_after, &old_keys, delete_after);
        self.note_released(&old_keys, now_ms);
        proof {
            let want = compaction_applied(s, plan.deep_view(), made, recheck_at_ms, now_ms);
            assert(self.deep_view().partitions == want.partitions);
            assert(self.deep_view().unreferenced_objects =~= want.unreferenced_objects);
        }
        Ok(true)
    }
}

} // verus!
