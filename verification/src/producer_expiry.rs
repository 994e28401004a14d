//! Forgetting producers that have long been silent.

use crate::error;
use crate::error::{ControlError, ControlErrorView};
use crate::log_reads;
use crate::log_reads::span_is_open;
use crate::log_types::{
    LogState, LogStateView, MemoryProducerView, MemoryTransaction, MemoryTransactionView, StoredSpan, StoredSpanView,
    TransactionStatus,
};
use crate::numbers;
use crate::numbers::saturating_difference;
use crate::partition::{PartitionKey, PartitionKeyView};
use crate::producers;
use crate::sorted_map;
use crate::sorted_map::{Duplicate, SortedMap};
use vstd::prelude::*;

verus! {

/// Whether a producer has an open transaction.
pub open spec fn is_busy(transactions: Map<u128, MemoryTransactionView>, producer_id: i64) -> bool {
    exists|id: u128| #[trigger] transactions.contains_key(id) && transactions[id].producer.producer_id == producer_id
        && transactions[id].status == TransactionStatus::Ongoing
}

fn has_open_transaction(transactions: &SortedMap<u128, MemoryTransaction>, producer_id: i64) -> (r: bool)
    ensures
        r == is_busy(transactions.deep_view(), producer_id),
{
    let ghost open = |id: u128, transaction: MemoryTransactionView|
        transaction.producer.producer_id == producer_id && transaction.status == TransactionStatus::Ongoing;
    let test = |id: &u128, transaction: &MemoryTransaction| -> (b: bool)
        ensures b == open(id.deep_view(), transaction.deep_view())
    {
        transaction.producer.producer_id == producer_id && transaction.status == TransactionStatus::Ongoing
    };
    let r = transactions.any(test, Ghost(open));
    proof {
        let m = transactions.deep_view();
        if r {
            let id = choose|id: u128| #[trigger] m.contains_key(id) && open(id, m[id]);
            assert(m.contains_key(id) && m[id].producer.producer_id == producer_id);
        } else if is_busy(m, producer_id) {
            let id = choose|id: u128| #[trigger] m.contains_key(id) && m[id].producer.producer_id == producer_id
                && m[id].status == TransactionStatus::Ongoing;
            assert(open(id, m[id]));
        }
    }
    r
}

/// The transactional ids without an open transaction that were last used by `cutoff_ms`, each behind
/// that time and its producer.
pub open spec fn idle_ids(s: LogStateView, cutoff_ms: i64) -> Set<((i64, i64), Seq<char>)> {
    Set::new(
        |entry: ((i64, i64), Seq<char>)|
            {
                let producer_id = s.transactional_producers[entry.1];
                let used_at = s.producers[producer_id].last_transaction_update_ms;
                s.transactional_producers.contains_key(entry.1) && entry.0 == (used_at, producer_id) && used_at <= cutoff_ms
                    && !is_busy(s.transactions, producer_id)
            },
    )
}

/// As many of some entries as `limit` allows.
pub open spec fn first_of<A>(entries: Seq<A>, limit: nat) -> Seq<A> {
    entries.take(
        if limit < entries.len() {
            limit as int
        } else {
            entries.len() as int
        },
    )
}

/// A producer that has lost its transactional id.
pub open spec fn released(producer: MemoryProducerView, now_ms: i64) -> MemoryProducerView {
    MemoryProducerView {
        transactional_id: None,
        current_transaction_id: None,
        two_phase_commit: false,
        last_transaction_update_ms: now_ms,
        ..producer
    }
}

/// The state after transactional ids have been given up.
pub open spec fn given_up(s: LogStateView, entries: Seq<((i64, i64), Seq<char>)>, now_ms: i64) -> LogStateView
    decreases entries.len(),
{
    if entries.len() == 0 {
        s
    } else {
        let before = given_up(s, entries.drop_last(), now_ms);
        let ((_, producer_id), transactional_id) = entries.last();
        LogStateView {
            transactional_producers: before.transactional_producers.remove(transactional_id),
            producers: before.producers.insert(producer_id, released(before.producers[producer_id], now_ms)),
            ..before
        }
    }
}

/// The state after idle transactional ids have been given up, and how many there were.
pub open spec fn ids_expired(s: LogStateView, now_ms: i64, expiration_ms: i64, limit: nat) -> (LogStateView, Result<u64, ControlErrorView>) {
    if expiration_ms <= 0 {
        (s, Err(ControlErrorView::InvalidRequest("transactional id expiration must be positive"@)))
    } else {
        let cutoff_ms = numbers::clamped_i64(now_ms - expiration_ms) as i64;
        let entries = first_of(sorted_map::sorted_keys::<((i64, i64), String)>(idle_ids(s, cutoff_ms)), limit);
        (given_up(s, entries, now_ms), Ok(entries.len() as u64))
    }
}

/// Whether a producer has an open transaction in a log.
pub open spec fn writes_to(transactions: Map<u128, MemoryTransactionView>, spans: Seq<StoredSpanView>, producer_id: i64) -> bool {
    exists|i: int| 0 <= i < spans.len() && (#[trigger] spans[i]).producer is Some && spans[i].producer->0.producer_id == producer_id
        && log_reads::is_open(transactions, spans[i])
}

/// Whether a producer has an open transaction in a partition.
pub open spec fn is_pending(s: LogStateView, p: PartitionKeyView, producer_id: i64) -> bool {
    s.partitions.contains_key(p) && writes_to(s.transactions, s.partitions[p].spans, producer_id)
}

fn has_open_span(transactions: &SortedMap<u128, MemoryTransaction>, spans: &Vec<StoredSpan>, producer_id: i64) -> (r: bool)
    ensures
        r == writes_to(transactions.deep_view(), spans.deep_view(), producer_id),
{
    let ghost t = transactions.deep_view();
    let ghost all = spans.deep_view();
    let mut i: usize = 0;
    while i < spans.len()
        invariant
            i <= spans@.len(),
            t == transactions.deep_view(),
            all == spans.deep_view(),
            forall|j: int| 0 <= j < i ==> !((#[trigger] all[j]).producer is Some && all[j].producer->0.producer_id == producer_id
                && log_reads::is_open(t, all[j])),
        decreases spans@.len() - i,
    {
        assert(all[i as int] == spans@[i as int].deep_view());
        let mine = match spans[i].producer {
            Some(batch) => batch.producer_id == producer_id,
            None => false,
        };
        if mine && span_is_open(transactions, &spans[i]) {
            return true;
        }
        i = i + 1;
    }
    false
}

/// What partitions remember of producers without an open transaction there that last wrote by
/// `cutoff_ms`, each behind that time and the producer.
pub open spec fn idle_sequences(s: LogStateView, cutoff_ms: i64) -> Set<((i64, i64), PartitionKeyView)> {
    Set::new(
        |entry: ((i64, i64), PartitionKeyView)|
            {
                let sequences = s.producers[entry.0.1].sequences;
                s.producers.contains_key(entry.0.1) && sequences.contains_key(entry.1) && entry.0.0 == sequences[entry.1].last_timestamp
                    && entry.0.0 <= cutoff_ms && !is_pending(s, entry.1, entry.0.1)
            },
    )
}

/// The producers after partitions have forgotten some of them.
pub open spec fn forgotten(producers: Map<i64, MemoryProducerView>, entries: Seq<((i64, i64), PartitionKeyView)>) -> Map<
    i64,
    MemoryProducerView,
>
    decreases entries.len(),
{
    if entries.len() == 0 {
        producers
    } else {
        let before = forgotten(producers, entries.drop_last());
        let ((_, producer_id), p) = entries.last();
        let producer = before[producer_id];
        before.insert(producer_id, MemoryProducerView { sequences: producer.sequences.remove(p), ..producer })
    }
}

/// The state after partitions have forgotten idle producers, and how often they have.
pub open spec fn sequences_expired(s: LogStateView, now_ms: i64, expiration_ms: i64, limit: nat) -> (LogStateView, Result<u64, ControlErrorView>) {
    if expiration_ms <= 0 {
        (s, Err(ControlErrorView::InvalidRequest("producer id expiration must be positive"@)))
    } else {
        let cutoff_ms = numbers::clamped_i64(now_ms - expiration_ms) as i64;
        let entries = first_of(sorted_map::sorted_keys::<((i64, i64), PartitionKey)>(idle_sequences(s, cutoff_ms)), limit);
        (LogStateView { producers: forgotten(s.producers, entries), ..s }, Ok(entries.len() as u64))
    }
}

/// Giving up transactional ids keeps every producer.
proof fn producers_are_kept(s: LogStateView, entries: Seq<((i64, i64), Seq<char>)>, now_ms: i64)
    requires
        forall|i: int| 0 <= i < entries.len() ==> s.producers.contains_key((#[trigger] entries[i]).0.1),
    ensures
        given_up(s, entries, now_ms).producers.dom() == s.producers.dom(),
    decreases entries.len(),
{
    if entries.len() > 0 {
        let rest = entries.drop_last();
        assert forall|i: int| 0 <= i < rest.len() implies s.producers.contains_key((#[trigger] rest[i]).0.1) by {
            assert(rest[i] == entries[i]);
        }
        producers_are_kept(s, rest, now_ms);
        assert(s.producers.contains_key(entries[entries.len() - 1].0.1));
        assert(given_up(s, entries, now_ms).producers.dom() =~= s.producers.dom());
    }
}

/// Forgetting keeps every producer, and what is not forgotten.
proof fn forgetting_keeps_the_rest(producers: Map<i64, MemoryProducerView>, entries: Seq<((i64, i64), PartitionKeyView)>)
    requires
        forall|i: int| 0 <= i < entries.len() ==> producers.contains_key((#[trigger] entries[i]).0.1),
    ensures
        forgotten(producers, entries).dom() == producers.dom(),
    decreases entries.len(),
{
    if entries.len() > 0 {
        let rest = entries.drop_last();
        assert forall|i: int| 0 <= i < rest.len() implies producers.contains_key((#[trigger] rest[i]).0.1) by {
            assert(rest[i] == entries[i]);
        }
        forgetting_keeps_the_rest(producers, rest);
        assert(producers.contains_key(entries[entries.len() - 1].0.1));
        assert(forgotten(producers, entries).dom() =~= producers.dom());
    }
}

impl LogState {
    /// The idle transactional ids, those idle longest first.
    fn list_idle_ids(&self, cutoff_ms: i64) -> (r: Vec<((i64, i64), String)>)
        requires
            producers::indexed(self.deep_view()),
        ensures
            r.deep_view() == sorted_map::sorted_keys::<((i64, i64), String)>(idle_ids(self.deep_view(), cutoff_ms)),
            r.deep_view().to_set() == idle_ids(self.deep_view(), cutoff_ms),
    {
        let ghost s = self.deep_view();
        let ghost idle = idle_ids(s, cutoff_ms);
        let ids = self.transactional_producers.keys();
        let ghost all = ids.deep_view();
        let mut order: SortedMap<((i64, i64), String), ()> = SortedMap::new();
        let mut i: usize = 0;
        while i < ids.len()
            invariant
                i <= ids@.len(),
                s == self.deep_view(),
                producers::indexed(s),
                idle == idle_ids(s, cutoff_ms),
                all == ids.deep_view(),
                all.to_set() == s.transactional_producers.dom(),
                forall|entry: ((i64, i64), Seq<char>)| #[trigger] order.deep_view().contains_key(entry) <==> idle.contains(entry)
                    && all.take(i as int).to_set().contains(entry.1),
            decreases ids@.len() - i,
        {
            proof {
                assert(all[i as int] == ids@[i as int].deep_view());
                assert(all.to_set().contains(all[i as int]));
                assert(s.transactional_producers.contains_key(all[i as int]));
                sorted_map::prefix_grows(all, i as int);
            }
            let producer_id: i64 = *self.transactional_producers.get(&ids[i]).unwrap();
            let used_at: i64 = self.producers.get(&producer_id).unwrap().last_transaction_update_ms;
            if used_at <= cutoff_ms && !has_open_transaction(&self.transactions, producer_id) {
                order.insert(((used_at, producer_id), ids[i].clone()), ());
            }
            i = i + 1;
        }
        assert(all.take(i as int) =~= all);
        assert(order.deep_view().dom() =~= idle);
        order.keys()
    }

    /// Gives up transactional ids that have long been idle, and counts them.
    pub fn expire_transactional_ids(&mut self, now_ms: i64, expiration_ms: i64, limit: usize) -> (r: Result<u64, ControlError>)
        requires
            producers::indexed(old(self).deep_view()),
        ensures
            (final(self).deep_view(), error::outcome(r)) == ids_expired(old(self).deep_view(), now_ms, expiration_ms, limit as nat),
    {
        let ghost s = self.deep_view();
        if expiration_ms <= 0 {
            return Err(ControlError::InvalidRequest("transactional id expiration must be positive".to_owned()));
        }
        let cutoff_ms: i64 = saturating_difference(now_ms, expiration_ms);
        let candidates = self.list_idle_ids(cutoff_ms);
        let ghost all = candidates.deep_view();
        let mut n: usize = 0;
        assert(all.take(0) =~= Seq::empty());
        while n < candidates.len() && n < limit
            invariant
                n <= candidates@.len(),
                n <= limit,
                all == candidates.deep_view(),
                all.to_set() == idle_ids(s, cutoff_ms),
                producers::indexed(s),
                self.deep_view() == given_up(s, all.take(n as int), now_ms),
            decreases candidates@.len() - n,
        {
            proof {
                assert(all[n as int] == candidates@[n as int].deep_view());
                sorted_map::prefix_grows(all, n as int);
                assert forall|i: int| 0 <= i < all.len() implies s.producers.contains_key((#[trigger] all[i]).0.1) by {
                    assert(all.to_set().contains(all[i]));
                    assert(s.transactional_producers.contains_key(all[i].1));
                }
                let part = all.take(n as int);
                assert forall|i: int| 0 <= i < part.len() implies s.producers.contains_key((#[trigger] part[i]).0.1) by {
                    assert(part[i] == all[i]);
                }
                producers_are_kept(s, part, now_ms);
                assert(s.producers.contains_key(all[n as int].0.1));
                assert(self.deep_view().producers.dom().contains(all[n as int].0.1));
            }
            let ghost before = self.deep_view();
            let producer_id: i64 = (candidates[n].0).1;
            self.transactional_producers.remove(&candidates[n].1);
            let mut producer = self.producers.remove(&producer_id).unwrap();
            producer.transactional_id = None;
            producer.current_transaction_id = None;
            producer.two_phase_commit = false;
            producer.last_transaction_update_ms = now_ms;
            let ghost after = producer.deep_view();
            self.producers.insert(producer_id, producer);
            assert(before.producers.remove(producer_id).insert(producer_id, after) =~= before.producers.insert(producer_id, after));
            n = n + 1;
        }
        assert(all.len() == candidates@.len());
        Ok(n as u64)
    }

    /// What partitions remember of idle producers, those idle longest first.
    fn list_idle_sequences(&self, cutoff_ms: i64) -> (r: Vec<((i64, i64), PartitionKey)>)
        ensures
            r.deep_view() == sorted_map::sorted_keys::<((i64, i64), PartitionKey)>(idle_sequences(self.deep_view(), cutoff_ms)),
            r.deep_view().to_set() == idle_sequences(self.deep_view(), cutoff_ms),
    {
        let ghost s = self.deep_view();
        let ghost idle = idle_sequences(s, cutoff_ms);
        let ids = self.producers.keys();
        let ghost all = ids.deep_view();
        let mut order: SortedMap<((i64, i64), PartitionKey), ()> = SortedMap::new();
        let mut i: usize = 0;
        while i < ids.len()
            invariant
                i <= ids@.len(),
                s == self.deep_view(),
                idle == idle_sequences(s, cutoff_ms),
                all == ids.deep_view(),
                all.to_set() == s.producers.dom(),
                sorted_map::strictly_sorted::<i64>(all),
                forall|entry: ((i64, i64), PartitionKeyView)| #[trigger] order.deep_view().contains_key(entry) <==> idle.contains(entry)
                    && all.take(i as int).to_set().contains(entry.0.1),
            decreases ids@.len() - i,
        {
            let id: i64 = ids[i];
            proof {
                assert(all[i as int] == ids@[i as int].deep_view());
                assert(all.to_set().contains(all[i as int]));
                sorted_map::prefix_grows(all, i as int);
                sorted_map::prefix_lacks::<i64>(all, i as int);
            }
            let producer = self.producers.get(&id).unwrap();
            let places = producer.sequences.keys();
            let ghost known = places.deep_view();
            let ghost seen = all.take(i as int).to_set();
            let mut n: usize = 0;
            while n < places.len()
                invariant
                    n <= places@.len(),
                    s == self.deep_view(),
                    s.producers.contains_key(id),
                    producer.deep_view() == s.producers[id],
                    idle == idle_sequences(s, cutoff_ms),
                    known == places.deep_view(),
                    known.to_set() == s.producers[id].sequences.dom(),
                    !seen.contains(id),
                    forall|entry: ((i64, i64), PartitionKeyView)| #[trigger] order.deep_view().contains_key(entry) <==> idle.contains(entry) && (seen.contains(entry.0.1) || (entry.0.1 == id && known.take(n as int).to_set().contains(entry.1))),
                decreases places@.len() - n,
            {
                proof {
                    assert(known[n as int] == places@[n as int].deep_view());
                    assert(known.to_set().contains(known[n as int]));
                    sorted_map::prefix_grows(known, n as int);
                }
                let timestamp: i64 = producer.sequences.get(&places[n]).unwrap().last_timestamp;
                if timestamp <= cutoff_ms {
                    let pending = match self.partitions.get(&places[n]) {
                        Some(log) => has_open_span(&self.transactions, &log.spans, id),
                        None => false,
                    };
                    if !pending {
                        order.insert(((timestamp, id), places[n].duplicate()), ());
                    }
                }
                n = n + 1;
            }
            assert(known.take(n as int) =~= known);
            i = i + 1;
        }
        assert(all.take(i as int) =~= all);
        assert(order.deep_view().dom() =~= idle);
        order.keys()
    }

    /// Lets partitions forget producers that have long been silent, and counts how often they do.
    pub fn expire_producer_sequences(&mut self, now_ms: i64, expiration_ms: i64, limit: usize) -> (r: Result<u64, ControlError>)
        ensures
            (final(self).deep_view(), error::outcome(r)) == sequences_expired(old(self).deep_view(), now_ms, expiration_ms, limit as nat),
    {
        let ghost s = self.deep_view();
        if expiration_ms <= 0 {
            return Err(ControlError::InvalidRequest("producer id expiration must be positive".to_owned()));
        }
        let cutoff_ms: i64 = saturating_difference(now_ms, expiration_ms);
        let candidates = self.list_idle_sequences(cutoff_ms);
        let ghost all = candidates.deep_view();
        let mut n: usize = 0;
        assert(all.take(0) =~= Seq::empty());
        while n < candidates.len() && n < limit
            invariant
                n <= candidates@.len(),
                n <= limit,
                all == candidates.deep_view(),
                all.to_set() == idle_sequences(s, cutoff_ms),
                self.deep_view() == (LogStateView { producers: forgotten(s.producers, all.take(n as int)), ..s }),
            decreases candidates@.len() - n,
        {
            proof {
                assert(all[n as int] == candidates@[n as int].deep_view());
                sorted_map::prefix_grows(all, n as int);
                let part = all.take(n as int);
                assert forall|i: int| 0 <= i < part.len() implies s.producers.contains_key((#[trigger] part[i]).0.1) by {
                    assert(part[i] == all[i]);
                    assert(all.to_set().contains(all[i]));
                }
                forgetting_keeps_the_rest(s.producers, part);
                assert(all.to_set().contains(all[n as int]));
                assert(self.deep_view().producers.dom().contains(all[n as int].0.1));
            }
            let ghost before = self.deep_view();
            let producer_id: i64 = (candidates[n].0).1;
            let mut producer = self.producers.remove(&producer_id).unwrap();
            producer.sequences.remove(&candidates[n].1);
            let ghost after = producer.deep_view();
            self.producers.insert(producer_id, producer);
            assert(before.producers.remove(producer_id).insert(producer_id, after) =~= before.producers.insert(producer_id, after));
            n = n + 1;
        }
        assert(all.len() == candidates@.len());
        Ok(n as u64)
    }
}

} // verus!
