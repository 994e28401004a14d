//! What the markers of a transaction's coordinator bring about.

use crate::log_types::{LogStateView, MemoryTransactionView, ProducerSession, TransactionStatus};
use crate::partition::PartitionKeyView;
use crate::transaction_ends;
use vstd::prelude::*;

verus! {

/// The epoch that a transaction's producer had last: that of the latest marker, or that of its writer.
pub open spec fn latest_epoch(transaction: MemoryTransactionView) -> i16 {
    match transaction.marker_producer_epoch {
        Some(epoch) => epoch,
        None => transaction.producer.producer_epoch,
    }
}

/// Whether a marker comes with an epoch that the transaction can take: with a later one, or, of the older
/// kind of markers, with the same; or once more with the one with which it ended.
pub open spec fn comes_in_time(transaction: MemoryTransactionView, epoch: i16, version: i8) -> bool {
    ||| epoch > latest_epoch(transaction)
    ||| version < 2 && epoch == latest_epoch(transaction)
    ||| transaction.status != TransactionStatus::Ongoing && transaction.marker_producer_epoch == Some(epoch)
}

/// Whether one transaction counts as later than another of the same producer: an open one as later than
/// one that has ended, and else the one that was started later.
pub open spec fn is_later(a: MemoryTransactionView, b: MemoryTransactionView) -> bool {
    ||| a.status == TransactionStatus::Ongoing && b.status != TransactionStatus::Ongoing
    ||| (a.status == TransactionStatus::Ongoing) == (b.status == TransactionStatus::Ongoing) && a.started_at > b.started_at
}

/// Whether a marker may end a transaction: it is one of the producer, none of the producer's is later, the
/// marker covers its partitions and comes in time, no coordinator with a later epoch has written before,
/// and the transaction has not ended otherwise.
pub open spec fn may_be_ended(
    s: LogStateView,
    id: u128,
    producer: ProducerSession,
    partitions: Seq<PartitionKeyView>,
    committed: bool,
    coordinator_epoch: i32,
    version: i8,
) -> bool {
    let transaction = s.transactions[id];
    &&& s.transactions.contains_key(id)
    &&& transaction.producer.producer_id == producer.producer_id
    &&& forall|other: u128|
        #[trigger] s.transactions.contains_key(other) && s.transactions[other].producer.producer_id == producer.producer_id
            ==> !is_later(s.transactions[other], transaction) && (s.transactions[other].marker_coordinator_epoch is Some
            ==> s.transactions[other].marker_coordinator_epoch->0 <= coordinator_epoch)
    &&& forall|p: PartitionKeyView| #[trigger] transaction.partitions.contains_key(p) ==> partitions.contains(p)
    &&& comes_in_time(transaction, producer.producer_epoch, version)
    &&& transaction.status == TransactionStatus::Ongoing || transaction.status == (if committed {
        TransactionStatus::Committed
    } else {
        TransactionStatus::Aborted
    })
}

/// Whether a transaction was ended: it is committed or aborted, the offsets that it held are stored where
/// it was open and is committed, its producer takes the later epoch and has it no more, and nothing else
/// has changed.
pub open spec fn was_ended(s: LogStateView, after: LogStateView, id: u128, producer: ProducerSession, committed: bool) -> bool {
    let transaction = s.transactions[id];
    let pid = producer.producer_id;
    let was_open = transaction.status == TransactionStatus::Ongoing;
    &&& after.transactions.contains_key(id)
    &&& after.transactions[id].status == if committed {
        TransactionStatus::Committed
    } else {
        TransactionStatus::Aborted
    }
    &&& after.transactions[id].marker_producer_epoch == Some(producer.producer_epoch)
    &&& forall|other: u128|
        #[trigger] s.transactions.contains_key(other) && other != id ==> after.transactions.contains_key(other) && after.transactions[other]
            == s.transactions[other]
    &&& forall|key: (Seq<char>, PartitionKeyView)|
        #[trigger] after.offsets.contains_key(key) <==> s.offsets.contains_key(key) || (was_open && committed && transaction.offsets.contains_key(
            key,
        ))
    &&& forall|key: (Seq<char>, PartitionKeyView)|
        #[trigger] after.offsets.contains_key(key) ==> after.offsets[key] == if was_open && committed && transaction.offsets.contains_key(key) {
            transaction.offsets[key]
        } else {
            s.offsets[key]
        }
    &&& s.producers.contains_key(pid) ==> {
        let before = s.producers[pid];
        let then = after.producers[pid];
        &&& then.epoch >= before.epoch && then.epoch >= producer.producer_epoch && (then.epoch == before.epoch || then.epoch
            == producer.producer_epoch)
        &&& was_open && before.current_transaction_id == Some(id) ==> then.current_transaction_id is None
        &&& !(was_open && before.current_transaction_id == Some(id)) ==> then.current_transaction_id == before.current_transaction_id
        &&& then.sequences == before.sequences && then.transactional_id == before.transactional_id
    }
    &&& forall|x: i64| #[trigger] s.producers.contains_key(x) && x != pid ==> after.producers[x] == s.producers[x]
    &&& after.partitions == s.partitions
}

proof fn some_marker_is_highest(transactions: Map<u128, MemoryTransactionView>, producer_id: i64, epoch: i32)
    requires
        transaction_ends::marked_at(transactions, producer_id, epoch),
    ensures
        transaction_ends::highest_marker(transactions, producer_id) is Some,
        transaction_ends::is_highest_marker(transactions, producer_id, transaction_ends::highest_marker(transactions, producer_id)->0),
    decreases i32::MAX - epoch,
{
    if exists|other: i32| #[trigger] transaction_ends::marked_at(transactions, producer_id, other) && other > epoch {
        let other = choose|other: i32| #[trigger] transaction_ends::marked_at(transactions, producer_id, other) && other > epoch;
        some_marker_is_highest(transactions, producer_id, other);
    } else {
        assert(transaction_ends::is_highest_marker(transactions, producer_id, epoch));
    }
}

proof fn later_coordinators_are_heeded(transactions: Map<u128, MemoryTransactionView>, producer_id: i64, coordinator_epoch: i32)
    ensures
        ({
            let highest = transaction_ends::highest_marker(transactions, producer_id);
            (highest is Some && coordinator_epoch < highest->0) <==> exists|other: u128|
                #[trigger] transactions.contains_key(other) && transactions[other].producer.producer_id == producer_id
                    && transactions[other].marker_coordinator_epoch is Some && transactions[other].marker_coordinator_epoch->0
                    > coordinator_epoch
        }),
{
    let highest = transaction_ends::highest_marker(transactions, producer_id);
    if highest is Some {
        assert(transaction_ends::is_highest_marker(transactions, producer_id, highest->0));
        let other = choose|other: u128|
            #[trigger] transactions.contains_key(other) && transactions[other].producer.producer_id == producer_id
                && transactions[other].marker_coordinator_epoch == Some(highest->0);
        assert(transactions.contains_key(other));
    }
    if exists|other: u128|
        #[trigger] transactions.contains_key(other) && transactions[other].producer.producer_id == producer_id
            && transactions[other].marker_coordinator_epoch is Some && transactions[other].marker_coordinator_epoch->0 > coordinator_epoch {
        let other = choose|other: u128|
            #[trigger] transactions.contains_key(other) && transactions[other].producer.producer_id == producer_id
                && transactions[other].marker_coordinator_epoch is Some && transactions[other].marker_coordinator_epoch->0 > coordinator_epoch;
        let epoch = transactions[other].marker_coordinator_epoch->0;
        assert(transaction_ends::marked_at(transactions, producer_id, epoch));
        some_marker_is_highest(transactions, producer_id, epoch);
        assert(transaction_ends::is_highest_marker(transactions, producer_id, highest->0));
    }
}

/// A marker that is accepted names partitions, and ends the latest transaction of its producer, which it
/// may end.
pub proof fn markers_end_the_latest_transaction(
    s: LogStateView,
    producer: ProducerSession,
    partitions: Seq<PartitionKeyView>,
    committed: bool,
    coordinator_epoch: i32,
    version: i8,
    now_ms: i64,
) -> (id: u128)
    requires
        transaction_ends::marker_written(s, producer, partitions, committed, coordinator_epoch, version, now_ms).1 is Ok,
    ensures
        partitions.len() > 0,
        may_be_ended(s, id, producer, partitions, committed, coordinator_epoch, version),
        was_ended(
            s,
            transaction_ends::marker_written(s, producer, partitions, committed, coordinator_epoch, version, now_ms).0,
            id,
            producer,
            committed,
        ),
{
    let of = transaction_ends::of_producer(producer.producer_id);
    let id = transaction_ends::newest(s.transactions, of, true)->0;
    assert(transaction_ends::is_newest(s.transactions, of, true, id));
    later_coordinators_are_heeded(s.transactions, producer.producer_id, coordinator_epoch);
    let transaction = s.transactions[id];
    assert forall|other: u128|
        #[trigger] s.transactions.contains_key(other) && s.transactions[other].producer.producer_id == producer.producer_id implies !is_later(
        s.transactions[other],
        transaction,
    ) && (s.transactions[other].marker_coordinator_epoch is Some ==> s.transactions[other].marker_coordinator_epoch->0 <= coordinator_epoch) by {
        assert(of(s.transactions[other]));
    }
    assert forall|p: PartitionKeyView| #[trigger] transaction.partitions.contains_key(p) implies partitions.contains(p) by {
        assert(!transaction_ends::leaves_out(transaction, partitions));
    }
    id
}

/// A marker that may end the one open transaction of its producer is accepted.
pub proof fn due_markers_are_accepted(
    s: LogStateView,
    id: u128,
    producer: ProducerSession,
    partitions: Seq<PartitionKeyView>,
    committed: bool,
    coordinator_epoch: i32,
    version: i8,
    now_ms: i64,
)
    requires
        partitions.len() > 0,
        may_be_ended(s, id, producer, partitions, committed, coordinator_epoch, version),
        s.transactions[id].status == TransactionStatus::Ongoing,
        forall|other: u128|
            #[trigger] s.transactions.contains_key(other) && s.transactions[other].producer.producer_id == producer.producer_id && other != id
                ==> s.transactions[other].status != TransactionStatus::Ongoing,
    ensures
        transaction_ends::marker_written(s, producer, partitions, committed, coordinator_epoch, version, now_ms).1 is Ok,
{
    let of = transaction_ends::of_producer(producer.producer_id);
    assert(transaction_ends::is_newest(s.transactions, of, true, id));
    let chosen = transaction_ends::newest(s.transactions, of, true)->0;
    assert(transaction_ends::is_newest(s.transactions, of, true, chosen));
    assert(chosen == id) by {
        if chosen != id {
            assert(of(s.transactions[id]) && of(s.transactions[chosen]));
            assert(transaction_ends::ranked_before(s.transactions[id], id, s.transactions[chosen], chosen, true));
        }
    }
    later_coordinators_are_heeded(s.transactions, producer.producer_id, coordinator_epoch);
}

} // verus!
