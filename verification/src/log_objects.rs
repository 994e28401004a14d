//! Objects from their staging to their deletion.

use crate::error;
use crate::error::{ControlError, ControlErrorView};
use crate::log_append;
use crate::log_append::{commit_memory_object, recent_spans};
use crate::log_types::{
    BatchDraft, BatchDraftView, LogState, LogStateView, MemoryPartition, MemoryPartitionView, MemoryProducer,
    MemoryProducerSequence, MemoryProducerSequenceView, MemoryProducerView, ObjectRef, ObjectRefView, ProducerBatch,
    StoredSpan, StoredSpanView,
};
use crate::numbers;
use crate::numbers::saturating_sum;
use crate::partition::{PartitionKey, PartitionKeyView};
use crate::sorted_map;
use crate::sorted_map::{Duplicate, SortedMap};
use crate::text::{join_three, same_text};
use vstd::prelude::*;

verus! {

/// The state after an object has been announced, or why it cannot be.
pub open spec fn staged(s: LogStateView, key: Seq<char>, now_ms: i64) -> (LogStateView, Result<(), ControlErrorView>) {
    if s.objects.contains_key(key) || s.staged_objects.contains_key(key) || s.orphan_gc_claims.contains_key(key) {
        (s, Err(ControlErrorView::InvalidRequest("object "@ + key + " is already staged or committed"@)))
    } else {
        (LogStateView { staged_objects: s.staged_objects.insert(key, now_ms), ..s }, Ok(()))
    }
}

/// The announced objects without those that hold some spans.
pub open spec fn unstaged(staged: Map<Seq<char>, i64>, spans: Seq<StoredSpanView>) -> Map<Seq<char>, i64>
    decreases spans.len(),
{
    if spans.len() == 0 {
        staged
    } else {
        unstaged(staged, spans.drop_last()).remove(spans.last().object_key)
    }
}

/// The state after an object has been committed, and the spans of its batches: a refused object
/// changes nothing.
pub open spec fn committed(s: LogStateView, object: ObjectRefView, batches: Seq<BatchDraftView>) -> (
    LogStateView,
    Result<Seq<StoredSpanView>, ControlErrorView>,
) {
    if s.orphan_gc_claims.contains_key(object.key) {
        (s, Err(ControlErrorView::InvalidRequest("object "@ + object.key + " was claimed for orphan deletion"@)))
    } else {
        match log_append::object_stored(s, object, batches) {
            Err(refusal) => (s, Err(refusal)),
            Ok((after, spans)) => (LogStateView { staged_objects: unstaged(after.staged_objects, spans), ..after }, Ok(spans)),
        }
    }
}

/// Whether a log holds a span of an object.
pub open spec fn log_refers_to(spans: Seq<StoredSpanView>, key: Seq<char>) -> bool {
    exists|i: int| 0 <= i < spans.len() && (#[trigger] spans[i]).object_key == key
}

/// Whether some partition holds a span of an object.
pub open spec fn refers_to(partitions: Map<PartitionKeyView, MemoryPartitionView>, key: Seq<char>) -> bool {
    exists|p: PartitionKeyView| #[trigger] partitions.contains_key(p) && log_refers_to(partitions[p].spans, key)
}

/// The state after an object has been deleted that nothing refers to, and whether it was known.
pub open spec fn deleted(s: LogStateView, key: Seq<char>) -> (LogStateView, bool) {
    if !s.unreferenced_objects.contains_key(key) || refers_to(s.partitions, key) {
        (s, false)
    } else {
        (
            LogStateView {
                unreferenced_objects: s.unreferenced_objects.remove(key),
                object_delete_after: s.object_delete_after.remove(key),
                objects: s.objects.remove(key),
                ..s
            },
            s.objects.contains_key(key),
        )
    }
}

/// When an announced object was last touched: claimed, or else announced.
pub open spec fn touched_at(s: LogStateView, key: Seq<char>) -> i64 {
    if s.orphan_gc_claims.contains_key(key) {
        s.orphan_gc_claims[key]
    } else {
        s.staged_objects[key]
    }
}

/// The announced objects that were never committed: claimed before, or announced by `before_ms`.
pub open spec fn stale(s: LogStateView, before_ms: i64) -> Set<(i64, Seq<char>)> {
    Set::new(
        |entry: (i64, Seq<char>)|
            s.staged_objects.contains_key(entry.1) && entry.0 == touched_at(s, entry.1) && (s.staged_objects[entry.1] <= before_ms
                || s.orphan_gc_claims.contains_key(entry.1)),
    )
}

/// The stale objects that a claim takes: at least one, at most `limit`, those touched longest ago.
pub open spec fn claimable(s: LogStateView, before_ms: i64, limit: i64) -> Seq<Seq<char>> {
    let order = sorted_map::sorted_keys::<(i64, String)>(stale(s, before_ms));
    let limit = if limit < 1 {
        1
    } else {
        limit as int
    };
    let n = if limit < order.len() {
        limit
    } else {
        order.len() as int
    };
    Seq::new(n as nat, |i: int| order[i].1)
}

/// The claims after the objects of a list have been claimed.
pub open spec fn claimed(claims: Map<Seq<char>, i64>, keys: Seq<Seq<char>>, now_ms: i64) -> Map<Seq<char>, i64>
    decreases keys.len(),
{
    if keys.len() == 0 {
        claims
    } else {
        claimed(claims, keys.drop_last(), now_ms).insert(keys.last(), now_ms)
    }
}

/// The times before which objects may not be deleted, once some are kept until `at`.
pub open spec fn deferred(times: Map<Seq<char>, i64>, keys: Set<Seq<char>>, at: i64) -> Map<Seq<char>, i64> {
    Map::new(
        |k: Seq<char>| times.contains_key(k) || keys.contains(k),
        |k: Seq<char>|
            if !keys.contains(k) || (times.contains_key(k) && times[k] > at) {
                times[k]
            } else {
                at
            },
    )
}

/// The objects of some spans.
pub open spec fn keys_of_spans(spans: Seq<StoredSpanView>) -> Set<Seq<char>> {
    Set::new(|k: Seq<char>| log_refers_to(spans, k))
}

/// Adds the objects of some spans to a set.
pub(crate) fn add_object_keys(keys: &mut SortedMap<String, ()>, spans: &Vec<StoredSpan>)
    ensures
        final(keys).deep_view().dom() == old(keys).deep_view().dom().union(keys_of_spans(spans.deep_view())),
{
    let ghost before = keys.deep_view().dom();
    let ghost all = spans.deep_view();
    let mut i: usize = 0;
    while i < spans.len()
        invariant
            i <= spans@.len(),
            all == spans.deep_view(),
            forall|k: Seq<char>| #[trigger] keys.deep_view().dom().contains(k) <==> before.contains(k) || log_refers_to(all.take(i as int), k),
        decreases spans@.len() - i,
    {
        let ghost last = all[i as int].object_key;
        let ghost known = keys.deep_view().dom();
        keys.insert(spans[i].object_key.clone(), ());
        proof {
            let now = all.take(i + 1);
            let then = all.take(i as int);
            assert(then.len() == i);
            assert(now[i as int].object_key == last);
            assert forall|k: Seq<char>| log_refers_to(now, k) <==> log_refers_to(then, k) || k == last by {
                if log_refers_to(now, k) && k != last {
                    let j = choose|j: int| 0 <= j < now.len() && (#[trigger] now[j]).object_key == k;
                    assert(then[j].object_key == k);
                }
                if log_refers_to(then, k) {
                    let j = choose|j: int| 0 <= j < then.len() && (#[trigger] then[j]).object_key == k;
                    assert(now[j].object_key == k);
                }
            }
            assert(keys.deep_view().dom() =~= known.insert(last));
        }
        i = i + 1;
    }
    assert(all.take(i as int) =~= all);
    assert(keys.deep_view().dom() =~= before.union(keys_of_spans(all)));
}

/// Keeps objects from being deleted before `at`.
pub(crate) fn keep_until(times: &mut SortedMap<String, i64>, keys: &SortedMap<String, ()>, at: i64)
    ensures
        final(times).deep_view() == deferred(old(times).deep_view(), keys.deep_view().dom(), at),
{
    let ghost t = times.deep_view();
    let list = keys.keys();
    let ghost all = list.deep_view();
    let mut i: usize = 0;
    while i < list.len()
        invariant
            i <= list@.len(),
            all == list.deep_view(),
            times.deep_view() == deferred(t, all.take(i as int).to_set(), at),
            sorted_map::strictly_sorted::<String>(all),
        decreases list@.len() - i,
    {
        let ghost seen = all.take(i as int).to_set();
        let ghost k = all[i as int];
        assert(list@[i as int].deep_view() == k);
        proof {
            sorted_map::prefix_lacks::<String>(all, i as int);
            sorted_map::prefix_grows(all, i as int);
        }
        let kept: i64 = match times.get(&list[i]) {
            Some(time) => if *time > at {
                *time
            } else {
                at
            },
            None => at,
        };
        times.insert(list[i].clone(), kept);
        assert(times.deep_view() =~= deferred(t, all.take(i + 1).to_set(), at));
        i = i + 1;
    }
    assert(all.take(i as int) =~= all);
    assert(all.to_set() =~= keys.deep_view().dom());
}

/// When objects that are let go at `now_ms` may be deleted.
pub open spec fn delete_time(now_ms: i64, delay_ms: i64) -> i64 {
    numbers::clamped_i64(now_ms + if delay_ms < 0 { 0 } else { delay_ms as int }) as i64
}

/// Keeps objects for `delay_ms` more.
pub(crate) fn defer_memory_object_delete(state: &mut LogState, object_keys: &SortedMap<String, ()>, now_ms: i64, delay_ms: i64)
    ensures
        final(state).deep_view() == (LogStateView {
            object_delete_after: deferred(
                old(state).deep_view().object_delete_after,
                object_keys.deep_view().dom(),
                delete_time(now_ms, delay_ms),
            ),
            ..old(state).deep_view()
        }),
{
    let delay: i64 = if delay_ms < 0 {
        0
    } else {
        delay_ms
    };
    let at: i64 = saturating_sum(now_ms, delay);
    keep_until(&mut state.object_delete_after, object_keys, at);
}

/// What a partition remembers of a producer, once only the spans given here are left.
pub open spec fn remembered(spans: Seq<StoredSpanView>, producer_id: i64, epoch: i16) -> Option<MemoryProducerSequenceView> {
    let latest = log_append::recent(spans, i64::MIN, producer_id, epoch, log_append::PRODUCER_BATCH_HISTORY_LIMIT as nat);
    if latest.len() == 0 {
        None
    } else {
        Some(
            MemoryProducerSequenceView {
                epoch: latest[0].producer->0.producer_epoch,
                last_sequence: latest[0].producer->0.last_sequence,
                last_timestamp: latest[0].timestamp_ms,
                history_start_offset: log_append::oldest(latest)->0,
            },
        )
    }
}

/// A producer after a partition's log has lost spans.
pub open spec fn reconciled_producer(
    producer: MemoryProducerView,
    producer_id: i64,
    p: PartitionKeyView,
    spans: Seq<StoredSpanView>,
) -> MemoryProducerView {
    if !producer.sequences.contains_key(p) {
        producer
    } else {
        match remembered(spans, producer_id, producer.sequences[p].epoch) {
            Some(sequence) => MemoryProducerView { sequences: producer.sequences.insert(p, sequence), ..producer },
            None => MemoryProducerView { sequences: producer.sequences.remove(p), ..producer },
        }
    }
}

/// The producers after a partition's log has lost spans.
pub open spec fn reconciled(producers: Map<i64, MemoryProducerView>, p: PartitionKeyView, spans: Seq<StoredSpanView>) -> Map<
    i64,
    MemoryProducerView,
> {
    Map::new(|id: i64| producers.contains_key(id), |id: i64| reconciled_producer(producers[id], id, p, spans))
}

/// Every recent span of a producer was written by it.
pub proof fn recent_is_written(spans: Seq<StoredSpanView>, floor: i64, producer_id: i64, epoch: i16, limit: nat)
    ensures
        forall|i: int| 0 <= i < log_append::recent(spans, floor, producer_id, epoch, limit).len() ==> log_append::written_by(
            #[trigger] log_append::recent(spans, floor, producer_id, epoch, limit)[i],
            floor,
            producer_id,
            epoch,
        ),
    decreases spans.len(),
{
    let all = log_append::recent(spans, floor, producer_id, epoch, limit);
    if spans.len() > 0 && limit > 0 {
        if log_append::written_by(spans.last(), floor, producer_id, epoch) {
            recent_is_written(spans.drop_last(), floor, producer_id, epoch, (limit - 1) as nat);
            let rest = log_append::recent(spans.drop_last(), floor, producer_id, epoch, (limit - 1) as nat);
            assert(all == seq![spans.last()] + rest);
            assert forall|i: int| 0 <= i < all.len() implies log_append::written_by(#[trigger] all[i], floor, producer_id, epoch) by {
                if i > 0 {
                    assert(all[i] == rest[i - 1]);
                }
            }
        } else {
            recent_is_written(spans.drop_last(), floor, producer_id, epoch, limit);
            assert(all == log_append::recent(spans.drop_last(), floor, producer_id, epoch, limit));
        }
    }
}

fn remember(spans: &Vec<StoredSpan>, producer_id: i64, epoch: i16) -> (r: Option<MemoryProducerSequence>)
    ensures
        r.deep_view() == remembered(spans.deep_view(), producer_id, epoch),
{
    let latest = recent_spans(spans, i64::MIN, producer_id, epoch);
    proof {
        recent_is_written(spans.deep_view(), i64::MIN, producer_id, epoch, log_append::PRODUCER_BATCH_HISTORY_LIMIT as nat);
        assert(latest.deep_view().len() == latest@.len());
    }
    if latest.len() == 0 {
        return None;
    }
    assert(latest.deep_view()[0] == latest@[0].deep_view());
    assert(log_append::written_by(latest.deep_view()[0], i64::MIN, producer_id, epoch));
    let batch: ProducerBatch = latest[0].producer.unwrap();
    let start: Option<i64> = log_append::oldest_base(&latest);
    Some(
        MemoryProducerSequence {
            epoch: batch.producer_epoch,
            last_sequence: batch.last_sequence,
            last_timestamp: latest[0].timestamp_ms,
            history_start_offset: start.unwrap(),
        },
    )
}

/// Brings what a partition remembers of producers in line with the spans that are left.
pub(crate) fn reconcile_memory_producer_sequences(producers: &mut SortedMap<i64, MemoryProducer>, partition: &PartitionKey, spans: &Vec<StoredSpan>)
    ensures
        final(producers).deep_view() == reconciled(old(producers).deep_view(), partition.deep_view(), spans.deep_view()),
{
    let ghost m = producers.deep_view();
    let ghost p = partition.deep_view();
    let ghost left = spans.deep_view();
    let ids = producers.keys();
    let ghost all = ids.deep_view();
    let mut i: usize = 0;
    while i < ids.len()
        invariant
            i <= ids@.len(),
            all == ids.deep_view(),
            all.to_set() == m.dom(),
            sorted_map::strictly_sorted::<i64>(all),
            p == partition.deep_view(),
            left == spans.deep_view(),
            producers.deep_view().dom() == m.dom(),
            forall|j: int| 0 <= j < i ==> producers.deep_view()[#[trigger] all[j]] == reconciled_producer(m[all[j]], all[j], p, left),
            forall|j: int| i <= j < all.len() ==> producers.deep_view()[#[trigger] all[j]] == m[all[j]],
        decreases ids@.len() - i,
    {
        let id: i64 = ids[i];
        assert(all[i as int] == ids@[i as int].deep_view());
        assert(all.to_set().contains(all[i as int]));
        proof {
            sorted_map::strictly_sorted_unique::<i64>(all);
        }
        let mut producer = producers.remove(&id).unwrap();
        let epoch: Option<i16> = match producer.sequences.get(partition) {
            Some(sequence) => Some(sequence.epoch),
            None => None,
        };
        if let Some(epoch) = epoch {
            match remember(spans, id, epoch) {
                Some(sequence) => {
                    producer.sequences.insert(partition.duplicate(), sequence);
                },
                None => {
                    producer.sequences.remove(partition);
                },
            }
        }
        producers.insert(id, producer);
        assert(producers.deep_view().dom() =~= m.dom());
        i = i + 1;
    }
    assert forall|id: i64| #[trigger] m.contains_key(id) implies producers.deep_view()[id] == reconciled_producer(m[id], id, p, left) by {
        assert(all.to_set().contains(id));
        let j = choose|j: int| 0 <= j < all.len() && all[j] == id;
        assert(producers.deep_view()[all[j]] == reconciled_producer(m[all[j]], all[j], p, left));
    }
    assert(producers.deep_view() =~= reconciled(m, p, left));
}

/// Whether a log holds a span of an object.
fn log_mentions(spans: &Vec<StoredSpan>, key: &str) -> (r: bool)
    ensures
        r == log_refers_to(spans.deep_view(), key@),
{
    let ghost all = spans.deep_view();
    let mut i: usize = 0;
    while i < spans.len()
        invariant
            i <= spans@.len(),
            all == spans.deep_view(),
            forall|j: int| 0 <= j < i ==> (#[trigger] all[j]).object_key != key@,
        decreases spans@.len() - i,
    {
        assert(all[i as int] == spans@[i as int].deep_view());
        if same_text(spans[i].object_key.as_str(), key) {
            return true;
        }
        i = i + 1;
    }
    false
}

/// Whether some partition holds a span of an object.
pub(crate) fn mentions(partitions: &SortedMap<PartitionKey, MemoryPartition>, key: &str) -> (r: bool)
    ensures
        r == refers_to(partitions.deep_view(), key@),
{
    let ghost k = key@;
    let ghost holds = |p: PartitionKeyView, log: MemoryPartitionView| log_refers_to(log.spans, k);
    let test = |p: &PartitionKey, log: &MemoryPartition| -> (b: bool)
        ensures b == holds(p.deep_view(), log.deep_view())
    {
        log_mentions(&log.spans, key)
    };
    let r = partitions.any(test, Ghost(holds));
    proof {
        let m = partitions.deep_view();
        if r {
            let p = choose|p: PartitionKeyView| #[trigger] m.contains_key(p) && holds(p, m[p]);
            assert(m.contains_key(p) && log_refers_to(m[p].spans, k));
        } else if refers_to(m, k) {
            let p = choose|p: PartitionKeyView| #[trigger] m.contains_key(p) && log_refers_to(m[p].spans, k);
            assert(holds(p, m[p]));
        }
    }
    r
}

impl LogState {
    /// Announces an object whose bytes are about to be written.
    pub fn stage_object(&mut self, object: ObjectRef, now_ms: i64) -> (r: Result<(), ControlError>)
        ensures
            (final(self).deep_view(), error::outcome(r)) == staged(old(self).deep_view(), object.key@, now_ms),
    {
        if self.objects.contains_key(&object.key) || self.staged_objects.contains_key(&object.key) || self.orphan_gc_claims.contains_key(
            &object.key,
        ) {
            return Err(
                ControlError::InvalidRequest(join_three("object ", object.key.as_str(), " is already staged or committed")),
            );
        }
        self.staged_objects.insert(object.key, now_ms);
        Ok(())
    }

    /// Stores the batches of an object.
    pub fn commit_object(&mut self, object: ObjectRef, batches: Vec<BatchDraft>) -> (r: Result<Vec<StoredSpan>, ControlError>)
        requires
            log_append::has_room(old(self).deep_view(), batches.deep_view(), 0),
        ensures
            (final(self).deep_view(), error::outcome(r)) == committed(old(self).deep_view(), object.deep_view(), batches.deep_view()),
    {
        if self.orphan_gc_claims.contains_key(&object.key) {
            return Err(
                ControlError::InvalidRequest(join_three("object ", object.key.as_str(), " was claimed for orphan deletion")),
            );
        }
        let (mut after, spans) = match commit_memory_object(self, object, batches) {
            Ok(stored) => stored,
            Err(refusal) => return Err(refusal),
        };
        let ghost s = after.deep_view();
        let ghost all = spans.deep_view();
        let mut i: usize = 0;
        assert(all.take(0) =~= Seq::empty());
        while i < spans.len()
            invariant
                i <= spans@.len(),
                all == spans.deep_view(),
                after.deep_view() == (LogStateView { staged_objects: unstaged(s.staged_objects, all.take(i as int)), ..s }),
            decreases spans@.len() - i,
        {
            proof {
                sorted_map::prefix_grows(all, i as int);
                assert(all[i as int] == spans@[i as int].deep_view());
            }
            after.staged_objects.remove(&spans[i].object_key);
            i = i + 1;
        }
        assert(all.take(i as int) =~= all);
        *self = after;
        Ok(spans)
    }

    /// Forgets an object whose bytes are gone, unless something refers to it again.
    pub fn complete_object_deletion(&mut self, key: &str) -> (r: bool)
        ensures
            (final(self).deep_view(), r) == deleted(old(self).deep_view(), key@),
    {
        let key = key.to_owned();
        if !self.unreferenced_objects.contains_key(&key) || mentions(&self.partitions, key.as_str()) {
            return false;
        }
        self.unreferenced_objects.remove(&key);
        self.object_delete_after.remove(&key);
        self.objects.remove(&key).is_some()
    }

    /// Claims objects that were announced and never committed.
    pub fn claim_stale_objects(&mut self, before_ms: i64, limit: i64, now_ms: i64) -> (r: Vec<String>)
        ensures
            r.deep_view() == claimable(old(self).deep_view(), before_ms, limit),
            final(self).deep_view() == (LogStateView {
                orphan_gc_claims: claimed(old(self).deep_view().orphan_gc_claims, r.deep_view(), now_ms),
                ..old(self).deep_view()
            }),
    {
        let ghost s = self.deep_view();
        let keys = self.staged_objects.keys();
        let ghost all = keys.deep_view();
        let mut order: SortedMap<(i64, String), ()> = SortedMap::new();
        let mut i: usize = 0;
        while i < keys.len()
            invariant
                i <= keys@.len(),
                s == self.deep_view(),
                all == keys.deep_view(),
                all.to_set() == s.staged_objects.dom(),
                forall|entry: (i64, Seq<char>)| #[trigger] order.deep_view().contains_key(entry) <==> stale(s, before_ms).contains(entry)
                    && all.take(i as int).to_set().contains(entry.1),
            decreases keys@.len() - i,
        {
            assert(all[i as int] == keys@[i as int].deep_view());
            assert(all.to_set().contains(all[i as int]));
            proof {
                sorted_map::prefix_grows(all, i as int);
            }
            let staged_at: i64 = *self.staged_objects.get(&keys[i]).unwrap();
            match self.orphan_gc_claims.get(&keys[i]) {
                Some(claimed_at) => {
                    order.insert((*claimed_at, keys[i].clone()), ());
                },
                None => {
                    if staged_at <= before_ms {
                        order.insert((staged_at, keys[i].clone()), ());
                    }
                },
            }
            i = i + 1;
        }
        assert(all.take(i as int) =~= all);
        assert(order.deep_view().dom() =~= stale(s, before_ms));
        let entries = order.keys();
        let ghost listed = entries.deep_view();
        let limit: i64 = if limit < 1 {
            1
        } else {
            limit
        };
        let mut r: Vec<String> = Vec::new();
        let mut n: usize = 0;
        while n < entries.len() && (n as u64) < limit as u64
            invariant
                n <= entries@.len(),
                n <= limit,
                limit >= 1,
                listed == entries.deep_view(),
                r@.len() == n,
                forall|j: int| 0 <= j < n ==> (#[trigger] r@[j])@ == listed[j].1,
                self.deep_view() == (LogStateView {
                    orphan_gc_claims: claimed(s.orphan_gc_claims, r.deep_view(), now_ms),
                    ..s
                }),
            decreases entries@.len() - n,
        {
            assert(listed[n as int] == entries@[n as int].deep_view());
            let ghost before = r.deep_view();
            let key = entries[n].1.clone();
            self.orphan_gc_claims.insert(key.clone(), now_ms);
            r.push(key);
            assert(r.deep_view().drop_last() =~= before);
            n = n + 1;
        }
        assert(r.deep_view() =~= claimable(s, before_ms, limit));
        r
    }

    /// Forgets a claimed object whose bytes are gone.
    pub fn complete_stale_object_deletion(&mut self, key: &str) -> (r: bool)
        ensures
            !old(self).deep_view().orphan_gc_claims.contains_key(key@) ==> !r && final(self).deep_view() == old(self).deep_view(),
            old(self).deep_view().orphan_gc_claims.contains_key(key@) ==> r == old(self).deep_view().staged_objects.contains_key(key@)
                && final(self).deep_view() == (LogStateView {
                orphan_gc_claims: old(self).deep_view().orphan_gc_claims.remove(key@),
                staged_objects: old(self).deep_view().staged_objects.remove(key@),
                ..old(self).deep_view()
            }),
    {
        let key = key.to_owned();
        if !self.orphan_gc_claims.contains_key(&key) {
            return false;
        }
        self.orphan_gc_claims.remove(&key);
        self.staged_objects.remove(&key).is_some()
    }

    pub fn object_committed(&self, key: &str) -> (r: bool)
        ensures
            r == self.deep_view().objects.contains_key(key@),
    {
        self.objects.contains_key(&key.to_owned())
    }

    pub fn object_staged(&self, key: &str) -> (r: bool)
        ensures
            r == self.deep_view().staged_objects.contains_key(key@),
    {
        self.staged_objects.contains_key(&key.to_owned())
    }
}

} // verus!
