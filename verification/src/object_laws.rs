//! What becomes of objects, and of what compactions make of them.

use crate::compaction;
use crate::compaction::{CompactedObjectView, CompactedSpanDraftView, CompactionPlanView, CompactionSourceSpanView};
use crate::compaction_commit;
use crate::compaction_commit::Used;
use crate::error::ControlErrorView;
use crate::log_objects;
use crate::log_types::{LogStateView, MemoryPartitionView, StoredSpanView};
use crate::partition::PartitionKeyView;
use crate::sorted_map;
use vstd::prelude::*;

verus! {

/// Whether some log has records in an object.
pub open spec fn is_needed(s: LogStateView, key: Seq<char>) -> bool {
    exists|p: PartitionKeyView, i: int|
        #![trigger s.partitions[p].spans[i]]
        s.partitions.contains_key(p) && 0 <= i < s.partitions[p].spans.len() && s.partitions[p].spans[i].object_key == key
}

proof fn needed_objects_are_referred_to(s: LogStateView, key: Seq<char>)
    ensures
        log_objects::refers_to(s.partitions, key) == is_needed(s, key),
{
    if log_objects::refers_to(s.partitions, key) {
        let p = choose|p: PartitionKeyView| #[trigger] s.partitions.contains_key(p) && log_objects::log_refers_to(s.partitions[p].spans, key);
        let spans = s.partitions[p].spans;
        let i = choose|i: int| 0 <= i < spans.len() && (#[trigger] spans[i]).object_key == key;
        assert(s.partitions[p].spans[i].object_key == key);
    }
    if is_needed(s, key) {
        let (p, i) = choose|p: PartitionKeyView, i: int|
            #![trigger s.partitions[p].spans[i]]
            s.partitions.contains_key(p) && 0 <= i < s.partitions[p].spans.len() && s.partitions[p].spans[i].object_key == key;
        assert(log_objects::log_refers_to(s.partitions[p].spans, key));
    }
}

/// An object is announced once: under a key that is neither stored, nor announced, nor claimed for deletion.
/// Then it is known when it was announced, and all others are as they were.
pub proof fn objects_are_announced_once(s: LogStateView, key: Seq<char>, now_ms: i64, other: Seq<char>)
    ensures
        ({
            let (after, answer) = log_objects::staged(s, key, now_ms);
            &&& answer is Ok <==> !s.objects.contains_key(key) && !s.staged_objects.contains_key(key) && !s.orphan_gc_claims.contains_key(key)
            &&& answer is Err ==> after == s
            &&& answer is Ok ==> after.staged_objects.contains_key(key) && after.staged_objects[key] == now_ms
            &&& other != key ==> after.staged_objects.contains_key(other) == s.staged_objects.contains_key(other) && (
            s.staged_objects.contains_key(other) ==> after.staged_objects[other] == s.staged_objects[other])
            &&& after.partitions == s.partitions && after.objects == s.objects && after.orphan_gc_claims == s.orphan_gc_claims
            &&& answer is Ok ==> log_objects::staged(after, key, now_ms).1 is Err
        }),
{
}

/// An object is deleted just where it was noted that no log has records in it, and still none has; and no
/// other goes with it.
pub proof fn needed_objects_are_never_deleted(s: LogStateView, key: Seq<char>, other: Seq<char>)
    ensures
        ({
            let (after, gone) = log_objects::deleted(s, key);
            &&& gone <==> s.objects.contains_key(key) && s.unreferenced_objects.contains_key(key) && !is_needed(s, key)
            &&& is_needed(s, key) ==> after == s
            &&& gone ==> !after.objects.contains_key(key) && !after.unreferenced_objects.contains_key(key)
                && !after.object_delete_after.contains_key(key)
            &&& other != key ==> after.objects.contains_key(other) == s.objects.contains_key(other) && (s.objects.contains_key(other)
                ==> after.objects[other] == s.objects[other]) && after.unreferenced_objects.contains_key(other)
                == s.unreferenced_objects.contains_key(other)
            &&& after.partitions == s.partitions
        }),
{
    needed_objects_are_referred_to(s, key);
}

/// A lease on a log is given up by who holds it, and by nobody else.
pub proof fn leases_are_given_up_by_their_holders(s: LogStateView, p: PartitionKeyView, lease_id: u128, other: PartitionKeyView)
    ensures
        ({
            let after = compaction::lease_released(s, p, lease_id);
            let held = s.partitions.contains_key(p) && s.partitions[p].compaction_lease is Some && (s.partitions[p].compaction_lease->0).0
                == lease_id;
            &&& held ==> after.partitions[p] == (MemoryPartitionView { compaction_lease: None, ..s.partitions[p] })
            &&& !held ==> after == s
            &&& other != p && s.partitions.contains_key(other) ==> after.partitions.contains_key(other) && after.partitions[other]
                == s.partitions[other]
        }),
{
}

proof fn spans_are_found(spans: Seq<StoredSpanView>, base: i64)
    ensures
        match compaction_commit::span_at(spans, base) {
            Some(span) => spans.contains(span) && span.base_offset == base,
            None => forall|i: int| 0 <= i < spans.len() ==> (#[trigger] spans[i]).base_offset != base,
        },
    decreases spans.len(),
{
    if spans.len() > 0 {
        let rest = spans.drop_last();
        spans_are_found(rest, base);
        assert(spans[spans.len() - 1] == spans.last());
        if spans.last().base_offset != base {
            match compaction_commit::span_at(rest, base) {
                Some(span) => {
                    let i = choose|i: int| 0 <= i < rest.len() && rest[i] == span;
                    assert(spans[i] == span);
                },
                None => {
                    assert forall|i: int| 0 <= i < spans.len() implies (#[trigger] spans[i]).base_offset != base by {
                        if i < rest.len() {
                            assert(rest[i].base_offset != base);
                        }
                    }
                },
            }
        }
    }
}

/// A compaction takes effect only under its lease, and only where each span that it was planned for still
/// stands in the log as it was. Without the lease nothing changes; where a span is another one, only the
/// lease is given up.
pub proof fn compactions_need_their_lease_and_their_spans(
    s: LogStateView,
    plan: CompactionPlanView,
    objects: Seq<CompactedObjectView>,
    recheck_at_ms: Option<i64>,
    now_ms: i64,
    k: int,
)
    requires
        0 <= k < plan.spans.len(),
    ensures
        ({
            let (after, answer) = compaction_commit::compaction_committed(s, plan, objects, recheck_at_ms, now_ms);
            let p = plan.partition;
            let leased = s.partitions.contains_key(p) && s.partitions[p].compaction_lease is Some && (s.partitions[p].compaction_lease->0).0
                == plan.lease_id;
            &&& !leased ==> after == s && answer == Ok::<bool, ControlErrorView>(false)
            &&& answer == Ok::<bool, ControlErrorView>(true) ==> leased && s.partitions[p].spans.contains(plan.spans[k].span)
                && plan.spans[k].span.base_offset == plan.spans[k].id
            &&& leased && !s.partitions[p].spans.contains(plan.spans[k].span) ==> answer == Ok::<bool, ControlErrorView>(false)
                && after.partitions[p] == (MemoryPartitionView { compaction_lease: None, ..s.partitions[p] }) && after.objects == s.objects
            &&& answer is Err ==> after == s
        }),
{
    let p = plan.partition;
    let spans = s.partitions[p].spans;
    spans_are_found(spans, plan.spans[k].id);
    if compaction_commit::is_outdated(spans, plan.spans) {
    } else {
        assert(compaction_commit::span_at(spans, plan.spans[k].id) == Some(plan.spans[k].span));
    }
}

proof fn checked_drafts_stand_apart(
    sources: Seq<CompactionSourceSpanView>,
    used: Used,
    object: CompactedObjectView,
    order: Seq<(u64, usize)>,
    n: nat,
    a: int,
    b: int,
)
    requires
        compaction_commit::drafts_checked(sources, used, object, order, n) is Ok,
        0 <= a < n,
        0 <= b < n,
    ensures
        ({
            let (after, end) = compaction_commit::drafts_checked(sources, used, object, order, n)->Ok_0;
            let first = object.spans[order[a].1 as int];
            let second = object.spans[order[b].1 as int];
            &&& first.byte_end <= end
            &&& a < b ==> first.byte_end <= second.byte_start && first.source_id != second.source_id && first.base_offset != second.base_offset
            &&& after.sources.contains(first.source_id) && after.base_offsets.contains(first.base_offset)
            &&& !used.sources.contains(first.source_id) && !used.base_offsets.contains(first.base_offset)
            &&& used.sources.subset_of(after.sources) && used.base_offsets.subset_of(after.base_offsets)
            &&& after.object_keys == used.object_keys
        }),
    decreases n,
{
    let (before, prior) = compaction_commit::drafts_checked(sources, used, object, order, (n - 1) as nat)->Ok_0;
    if n > 1 {
        if a < n - 1 {
            checked_drafts_stand_apart(sources, used, object, order, (n - 1) as nat, a, if b < n - 1 { b } else { a });
        } else {
            checked_drafts_stand_apart(sources, used, object, order, (n - 1) as nat, 0, 0);
        }
    } else {
        assert(compaction_commit::drafts_checked(sources, used, object, order, 0) == Ok::<(Used, u64), ControlErrorView>((used, 0u64)));
    }
}

proof fn drafts_have_their_place(drafts: Seq<CompactedSpanDraftView>, i: int) -> (k: int)
    requires
        0 <= i < drafts.len() <= usize::MAX,
    ensures
        0 <= k < compaction_commit::byte_order(drafts).len(),
        compaction_commit::byte_order(drafts)[k].1 == i,
{
    let places = compaction_commit::byte_places(drafts);
    let listed = Seq::new(drafts.len(), |k: int| (drafts[k].byte_start, k as usize));
    assert forall|place: (u64, usize)| listed.to_set().contains(place) == places.contains(place) by {
        if places.contains(place) {
            assert(listed[place.1 as int] == place);
        }
    }
    assert(listed.to_set() =~= places);
    vstd::seq_lib::seq_to_set_is_finite(listed);
    sorted_map::finite_sets_are_listed::<(u64, usize)>(places);
    let order = compaction_commit::byte_order(drafts);
    let place = (drafts[i].byte_start, i as usize);
    assert(places.contains(place));
    assert(order.to_set().contains(place));
    choose|k: int| 0 <= k < order.len() && order[k] == place
}

proof fn checked_objects_stand_apart(
    sources: Seq<CompactionSourceSpanView>,
    objects: Seq<CompactedObjectView>,
    n: nat,
    o: int,
    i: int,
    q: int,
    j: int,
)
    requires
        n <= objects.len(),
        compaction_commit::objects_checked(sources, objects, n) is Ok,
        0 <= o <= q < n,
        0 <= i < objects[o].spans.len() <= usize::MAX,
        0 <= j < objects[q].spans.len() <= usize::MAX,
        o != q || i != j,
    ensures
        ({
            let after = compaction_commit::objects_checked(sources, objects, n)->Ok_0;
            let first = objects[o].spans[i];
            let second = objects[q].spans[j];
            &&& first.source_id != second.source_id
            &&& first.base_offset != second.base_offset
            &&& o == q ==> first.byte_end <= second.byte_start || second.byte_end <= first.byte_start
            &&& o != q ==> objects[o].object.key != objects[q].object.key
        }),
    decreases n,
{
    if q < n - 1 {
        checked_objects_stand_apart(sources, objects, (n - 1) as nat, o, i, q, j);
    } else {
        let object = objects[q];
        let before = compaction_commit::objects_checked(sources, objects, (n - 1) as nat)->Ok_0;
        let used = Used { object_keys: before.object_keys.insert(object.object.key), ..before };
        let order = compaction_commit::byte_order(object.spans);
        let b = drafts_have_their_place(object.spans, j);
        if o == q {
            let a = drafts_have_their_place(object.spans, i);
            checked_drafts_stand_apart(sources, used, object, order, order.len(), a, b);
            checked_drafts_stand_apart(sources, used, object, order, order.len(), b, a);
        } else {
            checked_drafts_stand_apart(sources, used, object, order, order.len(), b, b);
            checked_objects_are_noted(sources, objects, (n - 1) as nat, o, i);
        }
    }
}

proof fn checked_objects_are_noted(sources: Seq<CompactionSourceSpanView>, objects: Seq<CompactedObjectView>, n: nat, o: int, i: int)
    requires
        n <= objects.len(),
        compaction_commit::objects_checked(sources, objects, n) is Ok,
        0 <= o < n,
        0 <= i < objects[o].spans.len() <= usize::MAX,
    ensures
        ({
            let after = compaction_commit::objects_checked(sources, objects, n)->Ok_0;
            &&& after.sources.contains(objects[o].spans[i].source_id)
            &&& after.base_offsets.contains(objects[o].spans[i].base_offset)
            &&& after.object_keys.contains(objects[o].object.key)
        }),
    decreases n,
{
    let object = objects[n - 1];
    let before = compaction_commit::objects_checked(sources, objects, (n - 1) as nat)->Ok_0;
    let used = Used { object_keys: before.object_keys.insert(object.object.key), ..before };
    let order = compaction_commit::byte_order(object.spans);
    if o == n - 1 {
        let a = drafts_have_their_place(object.spans, i);
        checked_drafts_stand_apart(sources, used, object, order, order.len(), a, a);
    } else {
        checked_objects_are_noted(sources, objects, (n - 1) as nat, o, i);
        if order.len() > 0 {
            checked_drafts_stand_apart(sources, used, object, order, order.len(), 0, 0);
        } else {
            assert(compaction_commit::drafts_checked(sources, used, object, order, 0) == Ok::<(Used, u64), ControlErrorView>((used, 0u64)));
        }
    }
}

/// What a compaction makes does not overlap: no two of its spans come from one source or begin at one
/// offset, the bytes of two in one object lie apart, and no two of its objects have one key.
pub proof fn compacted_spans_stand_apart(
    s: LogStateView,
    plan: CompactionPlanView,
    objects: Seq<CompactedObjectView>,
    recheck_at_ms: Option<i64>,
    now_ms: i64,
    o: int,
    i: int,
    q: int,
    j: int,
)
    requires
        compaction_commit::compaction_committed(s, plan, objects, recheck_at_ms, now_ms).1 == Ok::<bool, ControlErrorView>(true),
        0 <= o <= q < objects.len(),
        0 <= i < objects[o].spans.len() <= usize::MAX,
        0 <= j < objects[q].spans.len() <= usize::MAX,
        o != q || i != j,
    ensures
        ({
            let first = objects[o].spans[i];
            let second = objects[q].spans[j];
            &&& first.source_id != second.source_id
            &&& first.base_offset != second.base_offset
            &&& o == q ==> first.byte_end <= second.byte_start || second.byte_end <= first.byte_start
            &&& o != q ==> objects[o].object.key != objects[q].object.key
        }),
{
    checked_objects_stand_apart(plan.spans, objects, objects.len(), o, i, q, j);
}

} // verus!
