//! Handing out producer ids and epochs.

use crate::error;
use crate::error::{ControlError, ControlErrorView};
use crate::log_reads;
use crate::log_reads::transaction_is_ongoing;
use crate::log_types::{
    LogState, LogStateView, MemoryProducer, MemoryProducerView, MemoryTransaction, MemoryTransactionView,
    ProducerInitialization, ProducerInitializationView, ProducerSession, TransactionStatus,
};
use crate::sorted_map::SortedMap;
use crate::time;
use vstd::prelude::*;

verus! {

/// The transaction timeout of producers that have no transactional id.
pub const IDEMPOTENT_TIMEOUT_MS: i32 = 60_000;

pub fn validate_transaction_timeout(timeout_ms: i32) -> (r: Result<(), ControlError>)
    ensures
        error::outcome(r) == (if timeout_ms > 0 {
            Ok(())
        } else {
            Err(ControlErrorView::InvalidTransactionTimeout(timeout_ms))
        }),
{
    if timeout_ms <= 0 {
        return Err(ControlError::InvalidTransactionTimeout(timeout_ms));
    }
    Ok(())
}

/// The timeout that a producer is given: only transactional ones have a say in it.
pub open spec fn effective_timeout(transactional_id: Option<Seq<char>>, timeout_ms: i32) -> Result<i32, ControlErrorView> {
    if transactional_id is None {
        Ok(IDEMPOTENT_TIMEOUT_MS)
    } else if timeout_ms > 0 {
        Ok(timeout_ms)
    } else {
        Err(ControlErrorView::InvalidTransactionTimeout(timeout_ms))
    }
}

pub fn effective_transaction_timeout(transactional_id: Option<&str>, timeout_ms: i32) -> (r: Result<i32, ControlError>)
    ensures
        error::outcome(r) == effective_timeout(transactional_id.deep_view(), timeout_ms),
{
    if transactional_id.is_none() {
        return Ok(IDEMPOTENT_TIMEOUT_MS);
    }
    match validate_transaction_timeout(timeout_ms) {
        Ok(_) => Ok(timeout_ms),
        Err(refusal) => Err(refusal),
    }
}

/// What is said of two-phase options without a transactional id.
pub open spec fn two_phase_refusal() -> ControlErrorView {
    ControlErrorView::InvalidRequest("two-phase commit options require a transactional id"@)
}

pub fn validate_two_phase_options(transactional_id: Option<&str>, enable_2_pc: bool, keep_prepared_txn: bool) -> (r: Result<(), ControlError>)
    ensures
        error::outcome(r) == (if transactional_id is None && (enable_2_pc || keep_prepared_txn) {
            Err(two_phase_refusal())
        } else {
            Ok(())
        }),
{
    if transactional_id.is_none() && (enable_2_pc || keep_prepared_txn) {
        return Err(ControlError::InvalidRequest("two-phase commit options require a transactional id".to_owned()));
    }
    Ok(())
}

/// Why the session that a producer claims to have is not its session.
pub open spec fn session_refusal(producer_id: i64, expected_epoch: i16, current: Option<ProducerSession>) -> Option<ControlErrorView> {
    match current {
        None => None,
        Some(session) => if session.producer_id != producer_id {
            Some(ControlErrorView::UnknownProducer(session.producer_id))
        } else if session.producer_epoch != expected_epoch {
            Some(ControlErrorView::ProducerFenced { producer_id, expected_epoch, actual_epoch: session.producer_epoch })
        } else {
            None
        },
    }
}

pub fn validate_current_producer(producer_id: i64, expected_epoch: i16, current: Option<ProducerSession>) -> (r: Result<(), ControlError>)
    ensures
        error::outcome(r) == (match session_refusal(producer_id, expected_epoch, current) {
            Some(refusal) => Err(refusal),
            None => Ok(()),
        }),
{
    if let Some(session) = current {
        if session.producer_id != producer_id {
            return Err(ControlError::UnknownProducer(session.producer_id));
        }
        if session.producer_epoch != expected_epoch {
            return Err(ControlError::ProducerFenced { producer_id, expected_epoch, actual_epoch: session.producer_epoch });
        }
    }
    Ok(())
}

/// A producer that has written nothing.
pub open spec fn new_producer(transactional_id: Option<Seq<char>>, timeout_ms: i32, two_phase_commit: bool, now_ms: i64) -> MemoryProducerView {
    MemoryProducerView {
        epoch: 0,
        transactional_id,
        transaction_timeout_ms: timeout_ms,
        two_phase_commit,
        current_transaction_id: None,
        last_transaction_update_ms: now_ms,
        sequences: Map::empty(),
    }
}

/// The state after the next producer id has been handed out, and the session.
pub open spec fn allocated(
    s: LogStateView,
    transactional_id: Option<Seq<char>>,
    timeout_ms: i32,
    two_phase_commit: bool,
    now_ms: i64,
) -> (LogStateView, ProducerSession) {
    let id = (s.next_producer_id + 1) as i64;
    (
        LogStateView {
            next_producer_id: id,
            producers: s.producers.insert(id, new_producer(transactional_id, timeout_ms, two_phase_commit, now_ms)),
            ..s
        },
        ProducerSession { producer_id: id, producer_epoch: 0 },
    )
}

fn allocate_memory_producer(
    state: &mut LogState,
    transactional_id: Option<String>,
    transaction_timeout_ms: i32,
    two_phase_commit: bool,
    now_ms: i64,
) -> (r: ProducerSession)
    requires
        old(state).next_producer_id < i64::MAX,
    ensures
        (final(state).deep_view(), r) == allocated(
            old(state).deep_view(),
            transactional_id.deep_view(),
            transaction_timeout_ms,
            two_phase_commit,
            now_ms,
        ),
{
    state.next_producer_id = state.next_producer_id + 1;
    let session = ProducerSession { producer_id: state.next_producer_id, producer_epoch: 0 };
    let producer = MemoryProducer {
        epoch: 0,
        transactional_id,
        transaction_timeout_ms,
        two_phase_commit,
        current_transaction_id: None,
        last_transaction_update_ms: now_ms,
        sequences: SortedMap::new(),
    };
    state.producers.insert(session.producer_id, producer);
    session
}

/// The session that holds the prepared transaction of a producer.
pub open spec fn preserved(s: LogStateView, id: Option<u128>) -> Result<Option<ProducerSession>, ControlErrorView> {
    match id {
        None => Ok(None),
        Some(id) => if !s.transactions.contains_key(id) {
            Err(ControlErrorView::InvalidTransactionState("producer points to a missing transaction"@))
        } else if s.transactions[id].status != TransactionStatus::Ongoing {
            Err(ControlErrorView::InvalidTransactionState("transaction is no longer ongoing"@))
        } else {
            Ok(Some(s.transactions[id].producer))
        },
    }
}

fn preserved_memory_transaction(state: &LogState, id: Option<u128>) -> (r: Result<Option<ProducerSession>, ControlError>)
    ensures
        error::outcome(r) == preserved(state.deep_view(), id),
{
    let id: u128 = match id {
        Some(id) => id,
        None => return Ok(None),
    };
    let transaction = match state.transactions.get(&id) {
        Some(transaction) => transaction,
        None => return Err(ControlError::InvalidTransactionState("producer points to a missing transaction".to_owned())),
    };
    if transaction.status != TransactionStatus::Ongoing {
        return Err(ControlError::InvalidTransactionState("transaction is no longer ongoing".to_owned()));
    }
    Ok(Some(transaction.producer))
}

/// The state after a transactional producer has been given its next epoch, and the session: where
/// epochs run out the id is given up for a new one.
pub open spec fn bumped(
    s: LogStateView,
    transactional_id: Seq<char>,
    producer_id: i64,
    timeout_ms: i32,
    two_phase_commit: bool,
    current_transaction_id: Option<u128>,
    now_ms: i64,
) -> (LogStateView, ProducerSession) {
    let producer = s.producers[producer_id];
    if producer.epoch < i16::MAX {
        let epoch = (producer.epoch + 1) as i16;
        (
            LogStateView {
                producers: s.producers.insert(
                    producer_id,
                    MemoryProducerView {
                        epoch,
                        transaction_timeout_ms: timeout_ms,
                        two_phase_commit,
                        current_transaction_id,
                        last_transaction_update_ms: now_ms,
                        sequences: Map::empty(),
                        ..producer
                    },
                ),
                ..s
            },
            ProducerSession { producer_id, producer_epoch: epoch },
        )
    } else {
        let given_up = LogStateView {
            producers: s.producers.insert(
                producer_id,
                MemoryProducerView {
                    transactional_id: None,
                    current_transaction_id: None,
                    last_transaction_update_ms: now_ms,
                    ..producer
                },
            ),
            ..s
        };
        let (after, session) = allocated(given_up, Some(transactional_id), timeout_ms, two_phase_commit, now_ms);
        (
            LogStateView {
                producers: after.producers.insert(
                    session.producer_id,
                    MemoryProducerView { current_transaction_id, ..after.producers[session.producer_id] },
                ),
                transactional_producers: after.transactional_producers.insert(transactional_id, session.producer_id),
                ..after
            },
            session,
        )
    }
}

pub(crate) fn bump_memory_transactional_producer(
    state: &mut LogState,
    transactional_id: &str,
    producer_id: i64,
    transaction_timeout_ms: i32,
    two_phase_commit: bool,
    current_transaction_id: Option<u128>,
    now_ms: i64,
) -> (r: ProducerSession)
    requires
        old(state).next_producer_id < i64::MAX,
        old(state).deep_view().producers.contains_key(producer_id),
    ensures
        (final(state).deep_view(), r) == bumped(
            old(state).deep_view(),
            transactional_id@,
            producer_id,
            transaction_timeout_ms,
            two_phase_commit,
            current_transaction_id,
            now_ms,
        ),
{
    let ghost s = state.deep_view();
    let mut producer = state.producers.remove(&producer_id).unwrap();
    if producer.epoch < i16::MAX {
        producer.epoch = producer.epoch + 1;
        producer.transaction_timeout_ms = transaction_timeout_ms;
        producer.two_phase_commit = two_phase_commit;
        producer.current_transaction_id = current_transaction_id;
        producer.last_transaction_update_ms = now_ms;
        producer.sequences.clear();
        let session = ProducerSession { producer_id, producer_epoch: producer.epoch };
        let ghost after = producer.deep_view();
        state.producers.insert(producer_id, producer);
        assert(s.producers.remove(producer_id).insert(producer_id, after) =~= s.producers.insert(producer_id, after));
        return session;
    }
    producer.transactional_id = None;
    producer.current_transaction_id = None;
    producer.last_transaction_update_ms = now_ms;
    let ghost given_up = producer.deep_view();
    state.producers.insert(producer_id, producer);
    assert(s.producers.remove(producer_id).insert(producer_id, given_up) =~= s.producers.insert(producer_id, given_up));
    let session = allocate_memory_producer(
        state,
        Some(transactional_id.to_owned()),
        transaction_timeout_ms,
        two_phase_commit,
        now_ms,
    );
    let ghost t = state.deep_view();
    let mut fresh = state.producers.remove(&session.producer_id).unwrap();
    fresh.current_transaction_id = current_transaction_id;
    let ghost after = fresh.deep_view();
    state.producers.insert(session.producer_id, fresh);
    assert(t.producers.remove(session.producer_id).insert(session.producer_id, after) =~= t.producers.insert(session.producer_id, after));
    state.transactional_producers.insert(transactional_id.to_owned(), session.producer_id);
    session
}

/// The transactions with one of them in another state.
pub open spec fn with_status(transactions: Map<u128, MemoryTransactionView>, id: Option<u128>, status: TransactionStatus) -> Map<
    u128,
    MemoryTransactionView,
> {
    if id is Some && transactions.contains_key(id->0) {
        transactions.insert(id->0, MemoryTransactionView { status, ..transactions[id->0] })
    } else {
        transactions
    }
}

/// The transactions with an open one of them no longer bound to a time.
pub open spec fn without_deadline(transactions: Map<u128, MemoryTransactionView>, id: Option<u128>) -> Map<u128, MemoryTransactionView> {
    if id is Some && log_reads::is_ongoing(transactions, id->0) {
        transactions.insert(id->0, MemoryTransactionView { expires_at: None, ..transactions[id->0] })
    } else {
        transactions
    }
}

fn set_status(transactions: &mut SortedMap<u128, MemoryTransaction>, id: Option<u128>, status: TransactionStatus)
    ensures
        final(transactions).deep_view() == with_status(old(transactions).deep_view(), id, status),
{
    let ghost t = transactions.deep_view();
    if let Some(id) = id {
        if let Some(mut transaction) = transactions.remove(&id) {
            transaction.status = status;
            let ghost after = transaction.deep_view();
            transactions.insert(id, transaction);
            assert(t.remove(id).insert(id, after) =~= t.insert(id, after));
        } else {
            assert(t.remove(id) =~= t);
        }
    }
}

fn drop_deadline(transactions: &mut SortedMap<u128, MemoryTransaction>, id: Option<u128>)
    ensures
        final(transactions).deep_view() == without_deadline(old(transactions).deep_view(), id),
{
    let ghost t = transactions.deep_view();
    if let Some(id) = id {
        if transaction_is_ongoing(transactions, id) {
            let mut transaction = transactions.remove(&id).unwrap();
            transaction.expires_at = None;
            let ghost after = transaction.deep_view();
            transactions.insert(id, transaction);
            assert(t.remove(id).insert(id, after) =~= t.insert(id, after));
        }
    }
}

/// The state after a known transactional id has been taken up again.
pub open spec fn resumed(
    s: LogStateView,
    transactional_id: Seq<char>,
    timeout_ms: i32,
    current: Option<ProducerSession>,
    enable_2_pc: bool,
    keep_prepared_txn: bool,
    now_ms: i64,
) -> (LogStateView, Result<ProducerInitializationView, ControlErrorView>) {
    let producer_id = s.transactional_producers[transactional_id];
    let producer = s.producers[producer_id];
    let previous = producer.current_transaction_id;
    match session_refusal(producer_id, producer.epoch, current) {
        Some(refusal) => (s, Err(refusal)),
        None => {
            let held = if keep_prepared_txn {
                preserved(s, previous)
            } else {
                Ok(None)
            };
            match held {
                Err(refusal) => (s, Err(refusal)),
                Ok(ongoing_transaction) => {
                    let settled = if keep_prepared_txn {
                        s.transactions
                    } else {
                        with_status(s.transactions, previous, TransactionStatus::Aborted)
                    };
                    let transactions = if enable_2_pc {
                        without_deadline(settled, previous)
                    } else {
                        settled
                    };
                    let (after, producer) = bumped(
                        LogStateView { transactions, ..s },
                        transactional_id,
                        producer_id,
                        timeout_ms,
                        enable_2_pc,
                        if keep_prepared_txn {
                            previous
                        } else {
                            None
                        },
                        now_ms,
                    );
                    (after, Ok(ProducerInitializationView { producer, ongoing_transaction }))
                },
            }
        },
    }
}

/// The state after a producer without a transactional id has asked for its next epoch.
pub open spec fn advanced(s: LogStateView, session: ProducerSession, timeout_ms: i32, now_ms: i64) -> (
    LogStateView,
    Result<ProducerInitializationView, ControlErrorView>,
) {
    let id = session.producer_id;
    if !s.producers.contains_key(id) || s.producers[id].transactional_id is Some {
        (s, Err(ControlErrorView::UnknownProducer(id)))
    } else if s.producers[id].epoch != session.producer_epoch {
        (
            s,
            Err(
                ControlErrorView::ProducerFenced {
                    producer_id: id,
                    expected_epoch: s.producers[id].epoch,
                    actual_epoch: session.producer_epoch,
                },
            ),
        )
    } else if s.producers[id].epoch < i16::MAX {
        let epoch = (s.producers[id].epoch + 1) as i16;
        (
            LogStateView {
                producers: s.producers.insert(id, MemoryProducerView { epoch, sequences: Map::empty(), ..s.producers[id] }),
                ..s
            },
            Ok(
                ProducerInitializationView {
                    producer: ProducerSession { producer_id: id, producer_epoch: epoch },
                    ongoing_transaction: None,
                },
            ),
        )
    } else {
        let (after, producer) = allocated(s, None, timeout_ms, false, now_ms);
        (after, Ok(ProducerInitializationView { producer, ongoing_transaction: None }))
    }
}

/// The state after a producer has been given a session, or why it is given none.
pub open spec fn initialized(
    s: LogStateView,
    transactional_id: Option<Seq<char>>,
    transaction_timeout_ms: i32,
    current: Option<ProducerSession>,
    enable_2_pc: bool,
    keep_prepared_txn: bool,
    now_ms: i64,
) -> (LogStateView, Result<ProducerInitializationView, ControlErrorView>) {
    match effective_timeout(transactional_id, transaction_timeout_ms) {
        Err(refusal) => (s, Err(refusal)),
        Ok(timeout_ms) => match transactional_id {
            None => if enable_2_pc || keep_prepared_txn {
                (s, Err(two_phase_refusal()))
            } else {
                match current {
                    Some(session) => advanced(s, session, timeout_ms, now_ms),
                    None => {
                        let (after, producer) = allocated(s, None, timeout_ms, false, now_ms);
                        (after, Ok(ProducerInitializationView { producer, ongoing_transaction: None }))
                    },
                }
            },
            Some(id) => if s.transactional_producers.contains_key(id) {
                resumed(s, id, timeout_ms, current, enable_2_pc, keep_prepared_txn, now_ms)
            } else if current is Some {
                (s, Err(ControlErrorView::TransactionNotFound(id)))
            } else {
                let (after, producer) = allocated(s, Some(id), timeout_ms, enable_2_pc, now_ms);
                (
                    LogStateView {
                        transactional_producers: after.transactional_producers.insert(id, producer.producer_id),
                        ..after
                    },
                    Ok(ProducerInitializationView { producer, ongoing_transaction: None }),
                )
            },
        },
    }
}

/// Whether every transactional id names a producer that was handed out.
pub open spec fn indexed(s: LogStateView) -> bool {
    forall|id: Seq<char>| #[trigger] s.transactional_producers.contains_key(id) ==> s.producers.contains_key(s.transactional_producers[id])
}

impl LogState {
    /// Takes up a known transactional id again.
    fn resume_producer(
        &mut self,
        transactional_id: &str,
        producer_id: i64,
        timeout_ms: i32,
        current: Option<ProducerSession>,
        enable_2_pc: bool,
        keep_prepared_txn: bool,
        now_ms: i64,
    ) -> (r: Result<ProducerInitialization, ControlError>)
        requires
            old(self).next_producer_id < i64::MAX,
            old(self).deep_view().transactional_producers.contains_key(transactional_id@),
            old(self).deep_view().transactional_producers[transactional_id@] == producer_id,
            old(self).deep_view().producers.contains_key(producer_id),
        ensures
            (final(self).deep_view(), error::outcome(r)) == resumed(
                old(self).deep_view(),
                transactional_id@,
                timeout_ms,
                current,
                enable_2_pc,
                keep_prepared_txn,
                now_ms,
            ),
    {
        let ghost s = self.deep_view();
        let (epoch, previous): (i16, Option<u128>) = match self.producers.get(&producer_id) {
            Some(producer) => (producer.epoch, producer.current_transaction_id),
            None => (0, None),
        };
        match validate_current_producer(producer_id, epoch, current) {
            Ok(_) => {},
            Err(refusal) => return Err(refusal),
        }
        let mut ongoing_transaction: Option<ProducerSession> = None;
        if keep_prepared_txn {
            match preserved_memory_transaction(self, previous) {
                Ok(session) => {
                    ongoing_transaction = session;
                },
                Err(refusal) => return Err(refusal),
            }
        } else {
            set_status(&mut self.transactions, previous, TransactionStatus::Aborted);
        }
        if enable_2_pc {
            drop_deadline(&mut self.transactions, previous);
        }
        let kept: Option<u128> = if keep_prepared_txn {
            previous
        } else {
            None
        };
        let producer = bump_memory_transactional_producer(
            self,
            transactional_id,
            producer_id,
            timeout_ms,
            enable_2_pc,
            kept,
            now_ms,
        );
        Ok(ProducerInitialization { producer, ongoing_transaction })
    }

    /// Gives a producer without a transactional id its next epoch.
    fn advance_producer(&mut self, session: ProducerSession, timeout_ms: i32, now_ms: i64) -> (r: Result<ProducerInitialization, ControlError>)
        requires
            old(self).next_producer_id < i64::MAX,
        ensures
            (final(self).deep_view(), error::outcome(r)) == advanced(old(self).deep_view(), session, timeout_ms, now_ms),
    {
        let ghost s = self.deep_view();
        let id: i64 = session.producer_id;
        let epoch: i16 = match self.producers.get(&id) {
            Some(producer) => {
                if producer.transactional_id.is_some() {
                    return Err(ControlError::UnknownProducer(id));
                }
                producer.epoch
            },
            None => return Err(ControlError::UnknownProducer(id)),
        };
        if epoch != session.producer_epoch {
            return Err(
                ControlError::ProducerFenced { producer_id: id, expected_epoch: epoch, actual_epoch: session.producer_epoch },
            );
        }
        if epoch < i16::MAX {
            let mut producer = self.producers.remove(&id).unwrap();
            producer.epoch = epoch + 1;
            producer.sequences.clear();
            let ghost after = producer.deep_view();
            self.producers.insert(id, producer);
            assert(s.producers.remove(id).insert(id, after) =~= s.producers.insert(id, after));
            return Ok(
                ProducerInitialization {
                    producer: ProducerSession { producer_id: id, producer_epoch: epoch + 1 },
                    ongoing_transaction: None,
                },
            );
        }
        let producer = allocate_memory_producer(self, None, timeout_ms, false, now_ms);
        Ok(ProducerInitialization { producer, ongoing_transaction: None })
    }

    /// Gives a producer a session.
    pub fn init_producer_with_options(
        &mut self,
        transactional_id: Option<&str>,
        transaction_timeout_ms: i32,
        current: Option<ProducerSession>,
        enable_2_pc: bool,
        keep_prepared_txn: bool,
        now_ms: i64,
    ) -> (r: Result<ProducerInitialization, ControlError>)
        requires
            indexed(old(self).deep_view()),
            old(self).next_producer_id < i64::MAX,
        ensures
            (final(self).deep_view(), error::outcome(r)) == initialized(
                old(self).deep_view(),
                transactional_id.deep_view(),
                transaction_timeout_ms,
                current,
                enable_2_pc,
                keep_prepared_txn,
                now_ms,
            ),
    {
        let ghost s = self.deep_view();
        let timeout_ms: i32 = match effective_transaction_timeout(transactional_id, transaction_timeout_ms) {
            Ok(timeout_ms) => timeout_ms,
            Err(refusal) => return Err(refusal),
        };
        match validate_two_phase_options(transactional_id, enable_2_pc, keep_prepared_txn) {
            Ok(_) => {},
            Err(refusal) => return Err(refusal),
        }
        let transactional_id: &str = match transactional_id {
            Some(id) => id,
            None => {
                return match current {
                    Some(session) => self.advance_producer(session, timeout_ms, now_ms),
                    None => {
                        let producer = allocate_memory_producer(self, None, timeout_ms, false, now_ms);
                        Ok(ProducerInitialization { producer, ongoing_transaction: None })
                    },
                };
            },
        };
        let known: Option<i64> = match self.transactional_producers.get(&transactional_id.to_owned()) {
            Some(producer_id) => Some(*producer_id),
            None => None,
        };
        if let Some(producer_id) = known {
            return self.resume_producer(
                transactional_id,
                producer_id,
                timeout_ms,
                current,
                enable_2_pc,
                keep_prepared_txn,
                now_ms,
            );
        }
        if current.is_some() {
            return Err(ControlError::TransactionNotFound(transactional_id.to_owned()));
        }
        let producer = allocate_memory_producer(self, Some(transactional_id.to_owned()), timeout_ms, enable_2_pc, now_ms);
        self.transactional_producers.insert(transactional_id.to_owned(), producer.producer_id);
        Ok(ProducerInitialization { producer, ongoing_transaction: None })
    }
}

} // verus!
