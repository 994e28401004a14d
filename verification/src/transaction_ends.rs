//! How transactions end.

use crate::error;
use crate::error::{ControlError, ControlErrorView};
use crate::log_types::{
    CommittedOffset, LogState, LogStateView, MemoryProducerView, MemoryTransaction, MemoryTransactionView,
    ProducerSession, TransactionStatus,
};
use crate::partition::{PartitionKey, PartitionKeyView};
use crate::producers;
use crate::producers::bump_memory_transactional_producer;
use crate::sorted_map;
use crate::sorted_map::{Duplicate, SortKey, SortedMap};
use crate::text::Relation;
use crate::time;
use crate::time::Timestamp;
use crate::transactions;
use crate::transactions::memory_transaction_id;
use vstd::prelude::*;

verus! {

/// The state in which a transaction ends.
pub open spec fn ended(committed: bool) -> TransactionStatus {
    if committed {
        TransactionStatus::Committed
    } else {
        TransactionStatus::Aborted
    }
}

fn end_status(committed: bool) -> (r: TransactionStatus)
    ensures
        r == ended(committed),
{
    if committed {
        TransactionStatus::Committed
    } else {
        TransactionStatus::Aborted
    }
}

/// Stores the offsets of a transaction beside those that were stored before.
fn extend_offsets(to: &mut SortedMap<(String, PartitionKey), CommittedOffset>, from: &SortedMap<(String, PartitionKey), CommittedOffset>)
    ensures
        final(to).deep_view() == old(to).deep_view().union_prefer_right(from.deep_view()),
{
    let ghost m = to.deep_view();
    let ghost f = from.deep_view();
    let keys = from.keys();
    let ghost all = keys.deep_view();
    let mut i: usize = 0;
    while i < keys.len()
        invariant
            i <= keys@.len(),
            f == from.deep_view(),
            all == keys.deep_view(),
            all.to_set() == f.dom(),
            forall|k: (Seq<char>, PartitionKeyView)| #[trigger] to.deep_view().contains_key(k) <==> m.contains_key(k)
                || all.take(i as int).to_set().contains(k),
            forall|k: (Seq<char>, PartitionKeyView)| #[trigger] to.deep_view().contains_key(k)
                ==> to.deep_view()[k] == (if all.take(i as int).to_set().contains(k) {
                f[k]
            } else {
                m[k]
            }),
        decreases keys@.len() - i,
    {
        proof {
            assert(all[i as int] == keys@[i as int].deep_view());
            assert(all.to_set().contains(all[i as int]));
            sorted_map::prefix_grows(all, i as int);
        }
        let offset = from.get(&keys[i]).unwrap().duplicate();
        to.insert(keys[i].duplicate(), offset);
        i = i + 1;
    }
    assert(all.take(i as int) =~= all);
    assert(to.deep_view() =~= m.union_prefer_right(f));
}

/// Whether a request repeats the one that ended the latest transaction of a transactional id.
pub open spec fn is_repetition(s: LogStateView, producer_id: i64, producer: ProducerSession) -> bool {
    match s.producers[producer_id].current_transaction_id {
        None => false,
        Some(id) => s.transactions.contains_key(id) && s.transactions[id].status != TransactionStatus::Ongoing
            && s.transactions[id].producer == producer,
    }
}

/// The answer to a request that repeats an end.
pub open spec fn repeated_end(s: LogStateView, producer_id: i64, committed: bool) -> Result<ProducerSession, ControlErrorView> {
    let id = s.producers[producer_id].current_transaction_id->0;
    if s.transactions[id].status != ended(committed) {
        Err(ControlErrorView::InvalidTransactionState("the completed transaction has the opposite result"@))
    } else {
        Ok(ProducerSession { producer_id, producer_epoch: s.producers[producer_id].epoch })
    }
}

/// The state in which a transaction has ended and, where it was committed, its offsets are stored.
pub open spec fn settled(s: LogStateView, id: u128, transaction: MemoryTransactionView, committed: bool) -> LogStateView {
    LogStateView {
        transactions: s.transactions.insert(id, transaction),
        offsets: if committed {
            s.offsets.union_prefer_right(transaction.offsets)
        } else {
            s.offsets
        },
        ..s
    }
}

/// The state after the transaction at hand has ended, and the session with which its producer goes
/// on.
pub open spec fn end_at_hand(
    s: LogStateView,
    transactional_id: Seq<char>,
    producer: ProducerSession,
    committed: bool,
    bump_epoch: bool,
    fresh: u128,
    now: int,
) -> (LogStateView, Result<ProducerSession, ControlErrorView>) {
    let now_ms = time::whole_millis(now) as i64;
    let (at_hand, id) = transactions::transaction_at_hand(s, transactional_id, producer, bump_epoch && !committed, true, fresh, now);
    match id {
        Err(refusal) => (at_hand, Err(refusal)),
        Ok(id) => {
            let transaction = at_hand.transactions[id];
            let over = MemoryTransactionView {
                status: ended(committed),
                producer: if bump_epoch {
                    producer
                } else {
                    transaction.producer
                },
                ..transaction
            };
            let after = settled(at_hand, id, over, committed);
            let stored = after.producers[producer.producer_id];
            if bump_epoch {
                let (bumped, session) = producers::bumped(
                    after,
                    transactional_id,
                    producer.producer_id,
                    stored.transaction_timeout_ms,
                    stored.two_phase_commit,
                    Some(id),
                    now_ms,
                );
                (bumped, Ok(session))
            } else {
                (
                    LogStateView {
                        producers: after.producers.insert(
                            producer.producer_id,
                            MemoryProducerView { current_transaction_id: None, last_transaction_update_ms: now_ms, ..stored },
                        ),
                        ..after
                    },
                    Ok(producer),
                )
            }
        },
    }
}

/// The state after a producer has ended its transaction, and the session with which it goes on: its
/// own, or one of the next epoch. With a new epoch a repeated request is answered as the first was.
pub open spec fn finished(
    s: LogStateView,
    transactional_id: Seq<char>,
    producer: ProducerSession,
    committed: bool,
    bump_epoch: bool,
    fresh: u128,
    now: int,
) -> (LogStateView, Result<ProducerSession, ControlErrorView>) {
    if !bump_epoch {
        end_at_hand(s, transactional_id, producer, committed, bump_epoch, fresh, now)
    } else if !s.transactional_producers.contains_key(transactional_id) {
        (s, Err(ControlErrorView::TransactionNotFound(transactional_id)))
    } else {
        let current = s.transactional_producers[transactional_id];
        if !s.producers.contains_key(current) {
            (s, Err(ControlErrorView::UnknownProducer(current)))
        } else if is_repetition(s, current, producer) {
            (s, repeated_end(s, current, committed))
        } else {
            end_at_hand(s, transactional_id, producer, committed, bump_epoch, fresh, now)
        }
    }
}

fn finish_memory_transaction(
    state: &mut LogState,
    transactional_id: &str,
    producer: ProducerSession,
    committed: bool,
    bump_epoch: bool,
    fresh: u128,
    now: Timestamp,
) -> (r: Result<ProducerSession, ControlError>)
    requires
        bump_epoch ==> old(state).next_producer_id < i64::MAX,
    ensures
        (final(state).deep_view(), error::outcome(r)) == finished(
            old(state).deep_view(),
            transactional_id@,
            producer,
            committed,
            bump_epoch,
            fresh,
            now.deep_view(),
        ),
{
    let target = end_status(committed);
    if bump_epoch {
        let current_id: i64 = match state.transactional_producers.get(&transactional_id.to_owned()) {
            Some(id) => *id,
            None => return Err(ControlError::TransactionNotFound(transactional_id.to_owned())),
        };
        let current = match state.producers.get(&current_id) {
            Some(current) => current,
            None => return Err(ControlError::UnknownProducer(current_id)),
        };
        if let Some(id) = current.current_transaction_id {
            if let Some(transaction) = state.transactions.get(&id) {
                if transaction.status != TransactionStatus::Ongoing && transaction.producer == producer {
                    if transaction.status != target {
                        return Err(
                            ControlError::InvalidTransactionState("the completed transaction has the opposite result".to_owned()),
                        );
                    }
                    return Ok(ProducerSession { producer_id: current_id, producer_epoch: current.epoch });
                }
            }
        }
    }
    let id: u128 = match memory_transaction_id(state, transactional_id, producer, bump_epoch && !committed, true, fresh, now) {
        Ok(id) => id,
        Err(refusal) => return Err(refusal),
    };
    let ghost s = state.deep_view();
    let mut transaction = state.transactions.remove(&id).unwrap();
    transaction.status = target;
    if bump_epoch {
        transaction.producer = producer;
    }
    if committed {
        extend_offsets(&mut state.offsets, &transaction.offsets);
    }
    let ghost over = transaction.deep_view();
    state.transactions.insert(id, transaction);
    assert(s.transactions.remove(id).insert(id, over) =~= s.transactions.insert(id, over));
    assert(state.deep_view() == settled(s, id, over, committed));
    if !bump_epoch {
        let mut stored = state.producers.remove(&producer.producer_id).unwrap();
        stored.current_transaction_id = None;
        stored.last_transaction_update_ms = now.millis();
        let ghost after = stored.deep_view();
        state.producers.insert(producer.producer_id, stored);
        assert(s.producers.remove(producer.producer_id).insert(producer.producer_id, after) =~= s.producers.insert(producer.producer_id, after));
        return Ok(producer);
    }
    let (timeout_ms, two_phase_commit): (i32, bool) = match state.producers.get(&producer.producer_id) {
        Some(stored) => (stored.transaction_timeout_ms, stored.two_phase_commit),
        None => (0, false),
    };
    Ok(
        bump_memory_transactional_producer(
            state,
            transactional_id,
            producer.producer_id,
            timeout_ms,
            two_phase_commit,
            Some(id),
            now.millis(),
        ),
    )
}

/// How transactions are ranked: open ones last where that is asked for, then by when they started,
/// then by id.
pub open spec fn ranked_before(a: MemoryTransactionView, a_id: u128, b: MemoryTransactionView, b_id: u128, open_last: bool) -> bool {
    let a_open = open_last && a.status == TransactionStatus::Ongoing;
    let b_open = open_last && b.status == TransactionStatus::Ongoing;
    ||| !a_open && b_open
    ||| a_open == b_open && (a.started_at < b.started_at || (a.started_at == b.started_at && a_id < b_id))
}

/// Whether a transaction is the highest in rank of those that meet `p`.
pub open spec fn is_newest(
    transactions: Map<u128, MemoryTransactionView>,
    p: spec_fn(MemoryTransactionView) -> bool,
    open_last: bool,
    id: u128,
) -> bool {
    &&& transactions.contains_key(id)
    &&& p(transactions[id])
    &&& forall|other: u128| #[trigger] transactions.contains_key(other) && p(transactions[other]) ==> other == id || ranked_before(
        transactions[other],
        other,
        transactions[id],
        id,
        open_last,
    )
}

/// The transaction that is the highest in rank of those that meet `p`.
pub open spec fn newest(transactions: Map<u128, MemoryTransactionView>, p: spec_fn(MemoryTransactionView) -> bool, open_last: bool) -> Option<u128> {
    if exists|id: u128| is_newest(transactions, p, open_last, id) {
        Some(choose|id: u128| is_newest(transactions, p, open_last, id))
    } else {
        None
    }
}

pub(crate) fn find_newest<F: Fn(&MemoryTransaction) -> bool>(
    transactions: &SortedMap<u128, MemoryTransaction>,
    test: F,
    p: Ghost<spec_fn(MemoryTransactionView) -> bool>,
    open_last: bool,
) -> (r: Option<u128>)
    requires
        forall|t: &MemoryTransaction| call_requires(test, (t,)),
        forall|t: &MemoryTransaction, b: bool| call_ensures(test, (t,), b) ==> b == (p@)(t.deep_view()),
    ensures
        r == newest(transactions.deep_view(), p@, open_last),
        r is Some ==> is_newest(transactions.deep_view(), p@, open_last, r->0),
        r is None ==> forall|id: u128| #[trigger] transactions.deep_view().contains_key(id) ==> !(p@)(transactions.deep_view()[id]),
{
    let ghost m = transactions.deep_view();
    let ids = transactions.keys();
    let ghost all = ids.deep_view();
    let mut best: Option<u128> = None;
    let mut i: usize = 0;
    while i < ids.len()
        invariant
            i <= ids@.len(),
            m == transactions.deep_view(),
            all == ids.deep_view(),
            all.to_set() == m.dom(),
            sorted_map::strictly_sorted::<u128>(all),
            forall|t: &MemoryTransaction| call_requires(test, (t,)),
            forall|t: &MemoryTransaction, b: bool| call_ensures(test, (t,), b) ==> b == (p@)(t.deep_view()),
            best is None ==> forall|j: int| 0 <= j < i ==> !(p@)(m[#[trigger] all[j]]),
            best is Some ==> m.contains_key(best->0) && (p@)(m[best->0]) && all.take(i as int).to_set().contains(best->0),
            best is Some ==> forall|j: int| 0 <= j < i && (p@)(m[#[trigger] all[j]]) ==> all[j] == best->0
                || ranked_before(m[all[j]], all[j], m[best->0], best->0, open_last),
        decreases ids@.len() - i,
    {
        let id: u128 = ids[i];
        proof {
            assert(all[i as int] == ids@[i as int].deep_view());
            assert(all.to_set().contains(all[i as int]));
            sorted_map::prefix_grows(all, i as int);
            sorted_map::prefix_lacks::<u128>(all, i as int);
        }
        let candidate = transactions.get(&id).unwrap();
        if test(candidate) {
            match best {
                None => {
                    best = Some(id);
                },
                Some(leader) => {
                    let held = transactions.get(&leader).unwrap();
                    let held_open = open_last && held.status == TransactionStatus::Ongoing;
                    let open = open_last && candidate.status == TransactionStatus::Ongoing;
                    proof {
                        let k = choose|k: int| 0 <= k < i && all.take(i as int)[k] == leader;
                        assert(all[k] == leader);
                        assert(all[k] < all[i as int]);
                    }
                    if (open && !held_open) || (open == held_open && candidate.started_at.nanos >= held.started_at.nanos) {
                        best = Some(id);
                    }
                },
            }
        }
        i = i + 1;
    }
    proof {
        assert(all.take(i as int) =~= all);
        match best {
            Some(id) => {
                assert forall|other: u128| #[trigger] m.contains_key(other) && (p@)(m[other]) implies other == id
                    || ranked_before(m[other], other, m[id], id, open_last) by {
                    assert(all.to_set().contains(other));
                    let j = choose|j: int| 0 <= j < all.len() && all[j] == other;
                    assert((p@)(m[all[j]]));
                }
                assert(is_newest(m, p@, open_last, id));
                let chosen = choose|id: u128| is_newest(m, p@, open_last, id);
                assert(is_newest(m, p@, open_last, chosen));
                assert(m.contains_key(chosen) && m.contains_key(id));
                assert(chosen == id);
            },
            None => {
                assert forall|id: u128| #[trigger] m.contains_key(id) implies !(p@)(m[id]) by {
                    assert(all.to_set().contains(id));
                    let j = choose|j: int| 0 <= j < all.len() && all[j] == id;
                    assert(!(p@)(m[all[j]]));
                }
                if exists|id: u128| is_newest(m, p@, open_last, id) {
                    let id = choose|id: u128| is_newest(m, p@, open_last, id);
                    assert(m.contains_key(id) && (p@)(m[id]));
                }
            },
        }
    }
    best
}

/// The transactions of a producer.
pub open spec fn of_producer(producer_id: i64) -> spec_fn(MemoryTransactionView) -> bool {
    |transaction: MemoryTransactionView| transaction.producer.producer_id == producer_id
}

/// Whether a coordinator of epoch `epoch` has ended a transaction of a producer.
pub open spec fn marked_at(transactions: Map<u128, MemoryTransactionView>, producer_id: i64, epoch: i32) -> bool {
    exists|id: u128| #[trigger] transactions.contains_key(id) && transactions[id].producer.producer_id == producer_id
        && transactions[id].marker_coordinator_epoch == Some(epoch)
}

/// Whether `epoch` is the highest epoch of the coordinators that have ended transactions of a
/// producer.
pub open spec fn is_highest_marker(transactions: Map<u128, MemoryTransactionView>, producer_id: i64, epoch: i32) -> bool {
    &&& marked_at(transactions, producer_id, epoch)
    &&& forall|other: i32| #[trigger] marked_at(transactions, producer_id, other) ==> other <= epoch
}

/// The highest epoch of the coordinators that have ended transactions of a producer.
pub open spec fn highest_marker(transactions: Map<u128, MemoryTransactionView>, producer_id: i64) -> Option<i32> {
    if exists|epoch: i32| is_highest_marker(transactions, producer_id, epoch) {
        Some(choose|epoch: i32| is_highest_marker(transactions, producer_id, epoch))
    } else {
        None
    }
}

fn find_highest_marker(transactions: &SortedMap<u128, MemoryTransaction>, producer_id: i64) -> (r: Option<i32>)
    ensures
        r == highest_marker(transactions.deep_view(), producer_id),
{
    let ghost m = transactions.deep_view();
    let ids = transactions.keys();
    let ghost all = ids.deep_view();
    let mut highest: Option<i32> = None;
    let mut i: usize = 0;
    while i < ids.len()
        invariant
            i <= ids@.len(),
            m == transactions.deep_view(),
            all == ids.deep_view(),
            all.to_set() == m.dom(),
            highest is Some ==> marked_at(m, producer_id, highest->0),
            forall|j: int| 0 <= j < i && m[#[trigger] all[j]].producer.producer_id == producer_id
                && m[all[j]].marker_coordinator_epoch is Some ==> highest is Some && m[all[j]].marker_coordinator_epoch->0 <= highest->0,
        decreases ids@.len() - i,
    {
        proof {
            assert(all[i as int] == ids@[i as int].deep_view());
            assert(all.to_set().contains(all[i as int]));
            assert(m.contains_key(all[i as int]));
        }
        let transaction = transactions.get(&ids[i]).unwrap();
        if transaction.producer.producer_id == producer_id {
            if let Some(epoch) = transaction.marker_coordinator_epoch {
                assert(marked_at(m, producer_id, epoch));
                let higher = match highest {
                    Some(known) => epoch > known,
                    None => true,
                };
                if higher {
                    highest = Some(epoch);
                }
            }
        }
        i = i + 1;
    }
    proof {
        assert forall|other: i32| #[trigger] marked_at(m, producer_id, other) implies highest is Some && other <= highest->0 by {
            let id = choose|id: u128| #[trigger] m.contains_key(id) && m[id].producer.producer_id == producer_id
                && m[id].marker_coordinator_epoch == Some(other);
            assert(all.to_set().contains(id));
            let j = choose|j: int| 0 <= j < all.len() && all[j] == id;
            assert(m[all[j]].producer.producer_id == producer_id);
        }
        match highest {
            Some(epoch) => {
                assert(is_highest_marker(m, producer_id, epoch));
                let chosen = choose|epoch: i32| is_highest_marker(m, producer_id, epoch);
                assert(is_highest_marker(m, producer_id, chosen));
                assert(marked_at(m, producer_id, chosen) && marked_at(m, producer_id, epoch));
            },
            None => {
                if exists|epoch: i32| is_highest_marker(m, producer_id, epoch) {
                    let epoch = choose|epoch: i32| is_highest_marker(m, producer_id, epoch);
                    assert(marked_at(m, producer_id, epoch));
                }
            },
        }
    }
    highest
}

/// Whether some partition of a transaction is missing from a list.
pub open spec fn leaves_out(transaction: MemoryTransactionView, partitions: Seq<PartitionKeyView>) -> bool {
    exists|p: PartitionKeyView| #[trigger] transaction.partitions.contains_key(p) && !partitions.contains(p)
}

fn lists_partition(partitions: &[PartitionKey], partition: &PartitionKey) -> (r: bool)
    ensures
        r == sorted_map::models(partitions@).contains(partition.deep_view()),
{
    let ghost all = sorted_map::models(partitions@);
    let mut i: usize = 0;
    while i < partitions.len()
        invariant
            i <= partitions@.len(),
            all == sorted_map::models(partitions@),
            forall|j: int| 0 <= j < i ==> #[trigger] all[j] != partition.deep_view(),
        decreases partitions@.len() - i,
    {
        assert(all[i as int] == partitions@[i as int].deep_view());
        match partitions[i].compare(partition) {
            Relation::Same => {
                return true;
            },
            Relation::Before => {
                proof {
                    PartitionKey::irreflexive(partition.deep_view());
                }
            },
            Relation::After => {
                proof {
                    PartitionKey::irreflexive(partition.deep_view());
                }
            },
        }
        i = i + 1;
    }
    false
}

fn is_left_out(transaction: &MemoryTransaction, partitions: &[PartitionKey]) -> (r: bool)
    ensures
        r == leaves_out(transaction.deep_view(), sorted_map::models(partitions@)),
{
    let ghost all = sorted_map::models(partitions@);
    let ghost missing = |p: PartitionKeyView, unit: ()| !all.contains(p);
    let test = |p: &PartitionKey, unit: &()| -> (b: bool)
        ensures b == missing(p.deep_view(), unit.deep_view())
    {
        !lists_partition(partitions, p)
    };
    let r = transaction.partitions.any(test, Ghost(missing));
    proof {
        let m = transaction.deep_view().partitions;
        if r {
            let p = choose|p: PartitionKeyView| #[trigger] m.contains_key(p) && missing(p, m[p]);
            assert(m.contains_key(p) && !all.contains(p));
        } else if leaves_out(transaction.deep_view(), all) {
            let p = choose|p: PartitionKeyView| #[trigger] m.contains_key(p) && !all.contains(p);
            assert(missing(p, m[p]));
        }
    }
    r
}

/// Why a marker of a producer's epoch may not end a transaction. From the second version on, the
/// epoch has to be a new one, unless the marker repeats the one that ended the transaction.
pub open spec fn marker_refusal(transaction: MemoryTransactionView, producer: ProducerSession, transaction_version: i8) -> Option<ControlErrorView> {
    let current = match transaction.marker_producer_epoch {
        Some(epoch) => epoch,
        None => transaction.producer.producer_epoch,
    };
    let repeats = transaction.status != TransactionStatus::Ongoing && transaction.marker_producer_epoch == Some(producer.producer_epoch);
    let stale = if transaction_version >= 2 {
        producer.producer_epoch <= current && !repeats
    } else {
        producer.producer_epoch < current
    };
    if stale {
        Some(
            ControlErrorView::ProducerFenced {
                producer_id: producer.producer_id,
                expected_epoch: current,
                actual_epoch: producer.producer_epoch,
            },
        )
    } else {
        None
    }
}

/// The state after a marker has ended a transaction, or has confirmed its end.
pub open spec fn marker_applied(
    s: LogStateView,
    id: u128,
    producer: ProducerSession,
    committed: bool,
    coordinator_epoch: i32,
    transaction_version: i8,
    now_ms: i64,
) -> LogStateView {
    let transaction = s.transactions[id];
    let was_ongoing = transaction.status == TransactionStatus::Ongoing;
    let marked = MemoryTransactionView {
        status: ended(committed),
        marker_producer_epoch: Some(producer.producer_epoch),
        marker_coordinator_epoch: Some(coordinator_epoch),
        marker_transaction_version: Some(transaction_version),
        ..transaction
    };
    let after = settled(s, id, marked, committed && was_ongoing);
    if !s.producers.contains_key(producer.producer_id) {
        after
    } else {
        let stored = s.producers[producer.producer_id];
        LogStateView {
            producers: s.producers.insert(
                producer.producer_id,
                MemoryProducerView {
                    epoch: if stored.epoch < producer.producer_epoch {
                        producer.producer_epoch
                    } else {
                        stored.epoch
                    },
                    current_transaction_id: if was_ongoing && stored.current_transaction_id == Some(id) {
                        None
                    } else {
                        stored.current_transaction_id
                    },
                    last_transaction_update_ms: now_ms,
                    ..stored
                },
            ),
            ..after
        }
    }
}

/// The state after a coordinator's marker, or why the marker is refused.
pub open spec fn marker_written(
    s: LogStateView,
    producer: ProducerSession,
    partitions: Seq<PartitionKeyView>,
    committed: bool,
    coordinator_epoch: i32,
    transaction_version: i8,
    now_ms: i64,
) -> (LogStateView, Result<(), ControlErrorView>) {
    if partitions.len() == 0 {
        (s, Err(ControlErrorView::InvalidRequest("transaction marker must contain at least one partition"@)))
    } else {
        match newest(s.transactions, of_producer(producer.producer_id), true) {
            None => (s, Err(ControlErrorView::UnknownProducer(producer.producer_id))),
            Some(id) => {
                let transaction = s.transactions[id];
                let highest = highest_marker(s.transactions, producer.producer_id);
                match marker_refusal(transaction, producer, transaction_version) {
                    Some(refusal) => (s, Err(refusal)),
                    None => if highest is Some && coordinator_epoch < highest->0 {
                        (
                            s,
                            Err(
                                ControlErrorView::TransactionCoordinatorFenced {
                                    producer_id: producer.producer_id,
                                    current_epoch: highest->0,
                                    requested_epoch: coordinator_epoch,
                                },
                            ),
                        )
                    } else if leaves_out(transaction, partitions) {
                        (
                            s,
                            Err(
                                ControlErrorView::InvalidTransactionState(
                                    "transaction marker does not cover every registered partition"@,
                                ),
                            ),
                        )
                    } else if transaction.status != TransactionStatus::Ongoing && transaction.status != ended(committed) {
                        (
                            s,
                            Err(ControlErrorView::InvalidTransactionState("the completed transaction has the opposite result"@)),
                        )
                    } else {
                        (marker_applied(s, id, producer, committed, coordinator_epoch, transaction_version, now_ms), Ok(()))
                    },
                }
            },
        }
    }
}

impl LogState {
    /// Ends the transaction of a producer.
    pub fn end_transaction(
        &mut self,
        transactional_id: &str,
        producer: ProducerSession,
        committed: bool,
        now: Timestamp,
    ) -> (r: Result<(), ControlError>)
        ensures
            ({
                let (after, outcome) = finished(
                    old(self).deep_view(),
                    transactional_id@,
                    producer,
                    committed,
                    false,
                    0,
                    now.deep_view(),
                );
                final(self).deep_view() == after && error::outcome(r) == (match outcome {
                    Ok(_) => Ok(()),
                    Err(refusal) => Err(refusal),
                })
            }),
    {
        match finish_memory_transaction(self, transactional_id, producer, committed, false, 0, now) {
            Ok(_) => Ok(()),
            Err(refusal) => Err(refusal),
        }
    }

    /// Ends the transaction of a producer and gives the producer its next epoch.
    pub fn end_transaction_with_epoch_bump(
        &mut self,
        transactional_id: &str,
        producer: ProducerSession,
        committed: bool,
        fresh: u128,
        now: Timestamp,
    ) -> (r: Result<ProducerSession, ControlError>)
        requires
            old(self).next_producer_id < i64::MAX,
        ensures
            (final(self).deep_view(), error::outcome(r)) == finished(
                old(self).deep_view(),
                transactional_id@,
                producer,
                committed,
                true,
                fresh,
                now.deep_view(),
            ),
    {
        finish_memory_transaction(self, transactional_id, producer, committed, true, fresh, now)
    }

    /// Ends the latest transaction of a producer as its coordinator says.
    pub fn write_transaction_marker(
        &mut self,
        producer: ProducerSession,
        partitions: &[PartitionKey],
        committed: bool,
        coordinator_epoch: i32,
        transaction_version: i8,
        now_ms: i64,
    ) -> (r: Result<(), ControlError>)
        ensures
            (final(self).deep_view(), error::outcome(r)) == marker_written(
                old(self).deep_view(),
                producer,
                sorted_map::models(partitions@),
                committed,
                coordinator_epoch,
                transaction_version,
                now_ms,
            ),
    {
        let ghost s = self.deep_view();
        if partitions.len() == 0 {
            return Err(ControlError::InvalidRequest("transaction marker must contain at least one partition".to_owned()));
        }
        let ghost mine = of_producer(producer.producer_id);
        let test = |transaction: &MemoryTransaction| -> (b: bool)
            ensures b == mine(transaction.deep_view())
        {
            transaction.producer.producer_id == producer.producer_id
        };
        let id: u128 = match find_newest(&self.transactions, test, Ghost(mine), true) {
            Some(id) => id,
            None => return Err(ControlError::UnknownProducer(producer.producer_id)),
        };
        let target = end_status(committed);
        let transaction = self.transactions.get(&id).unwrap();
        let current: i16 = match transaction.marker_producer_epoch {
            Some(epoch) => epoch,
            None => transaction.producer.producer_epoch,
        };
        let was_ongoing = transaction.status == TransactionStatus::Ongoing;
        let repeats = !was_ongoing && match transaction.marker_producer_epoch {
            Some(epoch) => epoch == producer.producer_epoch,
            None => false,
        };
        let stale = if transaction_version >= 2 {
            producer.producer_epoch <= current && !repeats
        } else {
            producer.producer_epoch < current
        };
        if stale {
            return Err(
                ControlError::ProducerFenced {
                    producer_id: producer.producer_id,
                    expected_epoch: current,
                    actual_epoch: producer.producer_epoch,
                },
            );
        }
        if let Some(highest) = find_highest_marker(&self.transactions, producer.producer_id) {
            if coordinator_epoch < highest {
                return Err(
                    ControlError::TransactionCoordinatorFenced {
                        producer_id: producer.producer_id,
                        current_epoch: highest,
                        requested_epoch: coordinator_epoch,
                    },
                );
            }
        }
        if is_left_out(transaction, partitions) {
            return Err(
                ControlError::InvalidTransactionState("transaction marker does not cover every registered partition".to_owned()),
            );
        }
        if !was_ongoing && transaction.status != target {
            return Err(ControlError::InvalidTransactionState("the completed transaction has the opposite result".to_owned()));
        }
        let mut transaction = self.transactions.remove(&id).unwrap();
        transaction.status = target;
        transaction.marker_producer_epoch = Some(producer.producer_epoch);
        transaction.marker_coordinator_epoch = Some(coordinator_epoch);
        transaction.marker_transaction_version = Some(transaction_version);
        if committed && was_ongoing {
            extend_offsets(&mut self.offsets, &transaction.offsets);
        }
        let ghost marked = transaction.deep_view();
        self.transactions.insert(id, transaction);
        assert(s.transactions.remove(id).insert(id, marked) =~= s.transactions.insert(id, marked));
        if self.producers.contains_key(&producer.producer_id) {
            let mut stored = self.producers.remove(&producer.producer_id).unwrap();
            if stored.epoch < producer.producer_epoch {
                stored.epoch = producer.producer_epoch;
            }
            let holds = match stored.current_transaction_id {
                Some(current) => current == id,
                None => false,
            };
            if was_ongoing && holds {
                stored.current_transaction_id = None;
            }
            stored.last_transaction_update_ms = now_ms;
            let ghost after = stored.deep_view();
            self.producers.insert(producer.producer_id, stored);
            assert(s.producers.remove(producer.producer_id).insert(producer.producer_id, after) =~= s.producers.insert(producer.producer_id, after));
        }
        Ok(())
    }
}

} // verus!
