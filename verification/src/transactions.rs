//! Transactions: joining, finishing and timing out.

use crate::error;
use crate::error::{ControlError, ControlErrorView};
use crate::log_reads;
use crate::log_reads::partition_not_found;
use crate::log_types::{
    LogState, LogStateView, MemoryProducer, MemoryProducerView, MemoryTransaction, MemoryTransactionView,
    ProducerSession, TransactionStatus,
};
use crate::partition::{PartitionKey, PartitionKeyView};
use crate::producers;
use crate::sorted_map;
use crate::sorted_map::{Duplicate, SortedMap};
use crate::time;
use crate::time::Timestamp;
use vstd::prelude::*;

verus! {

/// Why a session does not hold a transactional id.
pub open spec fn producer_refusal(s: LogStateView, transactional_id: Seq<char>, producer: ProducerSession) -> Option<ControlErrorView> {
    if !s.transactional_producers.contains_key(transactional_id) {
        Some(ControlErrorView::TransactionNotFound(transactional_id))
    } else if s.transactional_producers[transactional_id] != producer.producer_id || !s.producers.contains_key(producer.producer_id) {
        Some(ControlErrorView::UnknownProducer(producer.producer_id))
    } else if s.producers[producer.producer_id].epoch != producer.producer_epoch {
        Some(
            ControlErrorView::ProducerFenced {
                producer_id: producer.producer_id,
                expected_epoch: s.producers[producer.producer_id].epoch,
                actual_epoch: producer.producer_epoch,
            },
        )
    } else {
        None
    }
}

fn validate_memory_transactional_producer(state: &LogState, transactional_id: &str, producer: ProducerSession) -> (r: Result<(), ControlError>)
    ensures
        error::outcome(r) == (match producer_refusal(state.deep_view(), transactional_id@, producer) {
            Some(refusal) => Err(refusal),
            None => Ok(()),
        }),
{
    let indexed: i64 = match state.transactional_producers.get(&transactional_id.to_owned()) {
        Some(id) => *id,
        None => return Err(ControlError::TransactionNotFound(transactional_id.to_owned())),
    };
    if indexed != producer.producer_id {
        return Err(ControlError::UnknownProducer(producer.producer_id));
    }
    let stored = match state.producers.get(&producer.producer_id) {
        Some(stored) => stored,
        None => return Err(ControlError::UnknownProducer(producer.producer_id)),
    };
    if stored.epoch != producer.producer_epoch {
        return Err(
            ControlError::ProducerFenced {
                producer_id: producer.producer_id,
                expected_epoch: stored.epoch,
                actual_epoch: producer.producer_epoch,
            },
        );
    }
    Ok(())
}

/// An open transaction that holds nothing yet.
pub open spec fn new_transaction(
    transactional_id: Seq<char>,
    producer: ProducerSession,
    stored: MemoryProducerView,
    now: int,
) -> MemoryTransactionView {
    MemoryTransactionView {
        transactional_id,
        producer,
        status: TransactionStatus::Ongoing,
        partitions: Map::empty(),
        groups: Map::empty(),
        offsets: Map::empty(),
        started_at: now,
        expires_at: if stored.two_phase_commit {
            None
        } else {
            Some(time::instant_after(now, stored.transaction_timeout_ms as int))
        },
        marker_producer_epoch: None,
        marker_coordinator_epoch: None,
        marker_transaction_version: None,
    }
}

/// The state after a producer has opened a transaction under the id `fresh`.
pub open spec fn opened(s: LogStateView, transactional_id: Seq<char>, producer: ProducerSession, fresh: u128, now: int) -> LogStateView {
    let stored = s.producers[producer.producer_id];
    LogStateView {
        transactions: s.transactions.insert(fresh, new_transaction(transactional_id, producer, stored, now)),
        producers: s.producers.insert(
            producer.producer_id,
            MemoryProducerView {
                current_transaction_id: Some(fresh),
                last_transaction_update_ms: time::whole_millis(now) as i64,
                ..stored
            },
        ),
        ..s
    }
}

/// The state with the transaction of a producer at hand, and its id. A transaction is opened where
/// none is open and `create` asks for it. One that an earlier epoch prepared is only at hand for
/// completion, which `allow_prepared` stands for.
pub open spec fn transaction_at_hand(
    s: LogStateView,
    transactional_id: Seq<char>,
    producer: ProducerSession,
    create: bool,
    allow_prepared: bool,
    fresh: u128,
    now: int,
) -> (LogStateView, Result<u128, ControlErrorView>) {
    match producer_refusal(s, transactional_id, producer) {
        Some(refusal) => (s, Err(refusal)),
        None => match s.producers[producer.producer_id].current_transaction_id {
            None => if create {
                (opened(s, transactional_id, producer, fresh, now), Ok(fresh))
            } else {
                (s, Err(ControlErrorView::InvalidTransactionState("transaction has not started"@)))
            },
            Some(id) => if !s.transactions.contains_key(id) {
                (s, Err(ControlErrorView::InvalidTransactionState("producer points to a missing transaction"@)))
            } else if s.transactions[id].status == TransactionStatus::Ongoing {
                if !allow_prepared && s.transactions[id].producer != producer {
                    (s, Err(ControlErrorView::InvalidTransactionState("prepared transaction can only be completed"@)))
                } else {
                    (s, Ok(id))
                }
            } else if create {
                (opened(s, transactional_id, producer, fresh, now), Ok(fresh))
            } else {
                (s, Err(ControlErrorView::InvalidTransactionState("transaction is no longer ongoing"@)))
            },
        },
    }
}

pub(crate) fn memory_transaction_id(
    state: &mut LogState,
    transactional_id: &str,
    producer: ProducerSession,
    create: bool,
    allow_prepared_recovery: bool,
    fresh: u128,
    now: Timestamp,
) -> (r: Result<u128, ControlError>)
    ensures
        (final(state).deep_view(), error::outcome(r)) == transaction_at_hand(
            old(state).deep_view(),
            transactional_id@,
            producer,
            create,
            allow_prepared_recovery,
            fresh,
            now.deep_view(),
        ),
{
    let ghost s = state.deep_view();
    match validate_memory_transactional_producer(state, transactional_id, producer) {
        Ok(_) => {},
        Err(refusal) => return Err(refusal),
    }
    let current: Option<u128> = match state.producers.get(&producer.producer_id) {
        Some(stored) => stored.current_transaction_id,
        None => None,
    };
    if let Some(id) = current {
        let transaction = match state.transactions.get(&id) {
            Some(transaction) => transaction,
            None => return Err(ControlError::InvalidTransactionState("producer points to a missing transaction".to_owned())),
        };
        if transaction.status == TransactionStatus::Ongoing {
            if !allow_prepared_recovery && transaction.producer != producer {
                return Err(ControlError::InvalidTransactionState("prepared transaction can only be completed".to_owned()));
            }
            return Ok(id);
        }
        if !create {
            return Err(ControlError::InvalidTransactionState("transaction is no longer ongoing".to_owned()));
        }
    }
    if !create {
        return Err(ControlError::InvalidTransactionState("transaction has not started".to_owned()));
    }
    let mut stored = state.producers.remove(&producer.producer_id).unwrap();
    let expires_at: Option<Timestamp> = if stored.two_phase_commit {
        None
    } else {
        Some(now.plus_millis(stored.transaction_timeout_ms))
    };
    let transaction = MemoryTransaction {
        transactional_id: transactional_id.to_owned(),
        producer,
        status: TransactionStatus::Ongoing,
        partitions: SortedMap::new(),
        groups: SortedMap::new(),
        offsets: SortedMap::new(),
        started_at: now,
        expires_at,
        marker_producer_epoch: None,
        marker_coordinator_epoch: None,
        marker_transaction_version: None,
    };
    state.transactions.insert(fresh, transaction);
    stored.current_transaction_id = Some(fresh);
    stored.last_transaction_update_ms = now.millis();
    let ghost after = stored.deep_view();
    state.producers.insert(producer.producer_id, stored);
    assert(s.producers.remove(producer.producer_id).insert(producer.producer_id, after) =~= s.producers.insert(producer.producer_id, after));
    Ok(fresh)
}

/// The producers with one of them seen at `now_ms`.
pub open spec fn touched(producers: Map<i64, MemoryProducerView>, id: i64, now_ms: i64) -> Map<i64, MemoryProducerView> {
    producers.insert(id, MemoryProducerView { last_transaction_update_ms: now_ms, ..producers[id] })
}

pub(crate) fn touch_memory_producer(producers: &mut SortedMap<i64, MemoryProducer>, id: i64, now_ms: i64)
    requires
        old(producers).deep_view().contains_key(id),
    ensures
        final(producers).deep_view() == touched(old(producers).deep_view(), id, now_ms),
{
    let ghost m = producers.deep_view();
    let mut producer = producers.remove(&id).unwrap();
    producer.last_transaction_update_ms = now_ms;
    let ghost after = producer.deep_view();
    producers.insert(id, producer);
    assert(m.remove(id).insert(id, after) =~= m.insert(id, after));
}

/// The first of some partitions that does not exist.
pub open spec fn first_missing(s: LogStateView, partitions: Seq<PartitionKeyView>) -> Option<PartitionKeyView>
    decreases partitions.len(),
{
    if partitions.len() == 0 {
        None
    } else if !s.partitions.contains_key(partitions[0]) {
        Some(partitions[0])
    } else {
        first_missing(s, partitions.drop_first())
    }
}

/// Checks that partitions exist.
pub(crate) fn require_partitions(state: &LogState, partitions: &[PartitionKey]) -> (r: Result<(), ControlError>)
    ensures
        error::outcome(r) == (match first_missing(state.deep_view(), sorted_map::models(partitions@)) {
            Some(p) => Err(log_reads::no_partition(p)),
            None => Ok(()),
        }),
{
    let ghost all = sorted_map::models(partitions@);
    let ghost s = state.deep_view();
    let mut i: usize = 0;
    assert(all.skip(0) =~= all);
    while i < partitions.len()
        invariant
            i <= partitions@.len(),
            all == sorted_map::models(partitions@),
            s == state.deep_view(),
            first_missing(s, all) == first_missing(s, all.skip(i as int)),
        decreases partitions@.len() - i,
    {
        assert(all.skip(i as int)[0] == partitions@[i as int].deep_view());
        assert(all.skip(i as int).drop_first() =~= all.skip(i + 1));
        if !state.partitions.contains_key(&partitions[i]) {
            return Err(partition_not_found(&partitions[i]));
        }
        i = i + 1;
    }
    Ok(())
}

/// A set of partitions with those of a list.
pub open spec fn with_partitions(set: Map<PartitionKeyView, ()>, list: Seq<PartitionKeyView>) -> Map<PartitionKeyView, ()> {
    Map::new(|p: PartitionKeyView| set.contains_key(p) || list.contains(p), |p: PartitionKeyView| ())
}

/// The state after partitions have been added to a transaction.
pub open spec fn partitions_added(
    s: LogStateView,
    transactional_id: Seq<char>,
    producer: ProducerSession,
    partitions: Seq<PartitionKeyView>,
    verify_only: bool,
    fresh: u128,
    now: int,
) -> (LogStateView, Result<(), ControlErrorView>) {
    match first_missing(s, partitions) {
        Some(p) => (s, Err(log_reads::no_partition(p))),
        None => if verify_only {
            match producer_refusal(s, transactional_id, producer) {
                Some(refusal) => (s, Err(refusal)),
                None => (s, Ok(())),
            }
        } else {
            let (at_hand, id) = transaction_at_hand(s, transactional_id, producer, true, false, fresh, now);
            match id {
                Err(refusal) => (at_hand, Err(refusal)),
                Ok(id) => {
                    let transaction = at_hand.transactions[id];
                    (
                        LogStateView {
                            transactions: at_hand.transactions.insert(
                                id,
                                MemoryTransactionView { partitions: with_partitions(transaction.partitions, partitions), ..transaction },
                            ),
                            producers: touched(at_hand.producers, producer.producer_id, time::whole_millis(now) as i64),
                            ..at_hand
                        },
                        Ok(()),
                    )
                },
            }
        },
    }
}

/// The state after a group has been added to a transaction.
pub open spec fn group_added(
    s: LogStateView,
    transactional_id: Seq<char>,
    producer: ProducerSession,
    group_id: Seq<char>,
    fresh: u128,
    now: int,
) -> (LogStateView, Result<(), ControlErrorView>) {
    if group_id.len() == 0 {
        (s, Err(ControlErrorView::InvalidRequest("group id must not be empty"@)))
    } else {
        let (at_hand, id) = transaction_at_hand(s, transactional_id, producer, true, false, fresh, now);
        match id {
            Err(refusal) => (at_hand, Err(refusal)),
            Ok(id) => {
                let transaction = at_hand.transactions[id];
                (
                    LogStateView {
                        transactions: at_hand.transactions.insert(
                            id,
                            MemoryTransactionView { groups: transaction.groups.insert(group_id, ()), ..transaction },
                        ),
                        producers: touched(at_hand.producers, producer.producer_id, time::whole_millis(now) as i64),
                        ..at_hand
                    },
                    Ok(()),
                )
            },
        }
    }
}

impl LogState {
    /// Adds partitions to the transaction of a producer, or only checks that it could.
    pub fn add_partitions_to_transaction(
        &mut self,
        transactional_id: &str,
        producer: ProducerSession,
        partitions: &[PartitionKey],
        verify_only: bool,
        fresh: u128,
        now: Timestamp,
    ) -> (r: Result<(), ControlError>)
        ensures
            (final(self).deep_view(), error::outcome(r)) == partitions_added(
                old(self).deep_view(),
                transactional_id@,
                producer,
                sorted_map::models(partitions@),
                verify_only,
                fresh,
                now.deep_view(),
            ),
    {
        match require_partitions(self, partitions) {
            Ok(_) => {},
            Err(refusal) => return Err(refusal),
        }
        if verify_only {
            return validate_memory_transactional_producer(self, transactional_id, producer);
        }
        let id: u128 = match memory_transaction_id(self, transactional_id, producer, true, false, fresh, now) {
            Ok(id) => id,
            Err(refusal) => return Err(refusal),
        };
        let ghost s = self.deep_view();
        let ghost all = sorted_map::models(partitions@);
        let mut transaction = self.transactions.remove(&id).unwrap();
        let ghost had = transaction.partitions.deep_view();
        let mut i: usize = 0;
        while i < partitions.len()
            invariant
                i <= partitions@.len(),
                all == sorted_map::models(partitions@),
                transaction.deep_view() == (MemoryTransactionView { partitions: transaction.partitions.deep_view(), ..s.transactions[id] }),
                forall|p: PartitionKeyView| #[trigger] transaction.partitions.deep_view().contains_key(p) <==> had.contains_key(p)
                    || all.take(i as int).to_set().contains(p),
            decreases partitions@.len() - i,
        {
            proof {
                assert(all[i as int] == partitions@[i as int].deep_view());
                sorted_map::prefix_grows(all, i as int);
            }
            transaction.partitions.insert(partitions[i].duplicate(), ());
            i = i + 1;
        }
        assert(all.take(i as int) =~= all);
        assert(transaction.partitions.deep_view() =~= with_partitions(had, all));
        let ghost after = transaction.deep_view();
        self.transactions.insert(id, transaction);
        assert(s.transactions.remove(id).insert(id, after) =~= s.transactions.insert(id, after));
        touch_memory_producer(&mut self.producers, producer.producer_id, now.millis());
        Ok(())
    }

    /// Adds a group to the transaction of a producer.
    pub fn add_offsets_to_transaction(
        &mut self,
        transactional_id: &str,
        producer: ProducerSession,
        group_id: &str,
        fresh: u128,
        now: Timestamp,
    ) -> (r: Result<(), ControlError>)
        ensures
            (final(self).deep_view(), error::outcome(r)) == group_added(
                old(self).deep_view(),
                transactional_id@,
                producer,
                group_id@,
                fresh,
                now.deep_view(),
            ),
    {
        if group_id.is_empty() {
            return Err(ControlError::InvalidRequest("group id must not be empty".to_owned()));
        }
        let id: u128 = match memory_transaction_id(self, transactional_id, producer, true, false, fresh, now) {
            Ok(id) => id,
            Err(refusal) => return Err(refusal),
        };
        let ghost s = self.deep_view();
        let mut transaction = self.transactions.remove(&id).unwrap();
        transaction.groups.insert(group_id.to_owned(), ());
        let ghost after = transaction.deep_view();
        self.transactions.insert(id, transaction);
        assert(s.transactions.remove(id).insert(id, after) =~= s.transactions.insert(id, after));
        touch_memory_producer(&mut self.producers, producer.producer_id, now.millis());
        Ok(())
    }
}

} // verus!
