//! What holds of producers, their transactions and stored offsets, whatever is asked of them.

use crate::error::ControlErrorView;
use crate::log_append;
use crate::log_reads;
use crate::log_types::{
    BatchDraftView, CommittedOffsetView, LogStateView, MemoryTransactionView, OffsetCommitView, ProducerSession,
    StoredSpanView, TransactionStatus,
};
use crate::offsets;
use crate::partition::PartitionKeyView;
use crate::producer_expiry;
use crate::producers;
use crate::sorted_map;
use crate::transaction_ends;
use crate::transaction_queries;
use crate::transactions;
use vstd::prelude::*;

verus! {

/// Whether no offset of a collection is negative.
pub open spec fn count_up(held: Map<(Seq<char>, PartitionKeyView), CommittedOffsetView>) -> bool {
    forall|key: (Seq<char>, PartitionKeyView)| #[trigger] held.contains_key(key) ==> held[key].offset >= 0
}

/// Whether a producer id was handed out, and its transaction is known.
pub open spec fn producer_is_orderly(s: LogStateView, id: i64) -> bool {
    let producer = s.producers[id];
    &&& id <= s.next_producer_id
    &&& producer.current_transaction_id is Some ==> s.transactions.contains_key(producer.current_transaction_id->0)
}

/// Whether every producer id was handed out, every transactional id names a producer that holds it,
/// the transaction of every producer is known, and no stored offset is negative.
pub open spec fn is_orderly(s: LogStateView) -> bool {
    &&& forall|id: i64| #[trigger] s.producers.contains_key(id) ==> producer_is_orderly(s, id)
    &&& forall|name: Seq<char>| #[trigger]
        s.transactional_producers.contains_key(name) ==> s.producers.contains_key(s.transactional_producers[name])
            && s.producers[s.transactional_producers[name]].transactional_id == Some(name)
    &&& forall|id: u128| #[trigger] s.transactions.contains_key(id) ==> count_up(s.transactions[id].offsets)
    &&& count_up(s.offsets)
}

/// Whether logs, topics and objects are untouched.
pub open spec fn leaves_logs_alone(before: LogStateView, after: LogStateView) -> bool {
    &&& after.partitions == before.partitions
    &&& after.objects == before.objects
    &&& after.topics == before.topics
    &&& after.topic_configs == before.topic_configs
    &&& after.staged_objects == before.staged_objects
}

/// Whether no producer is lost and no epoch goes back.
pub open spec fn epochs_grow(before: LogStateView, after: LogStateView) -> bool {
    forall|id: i64| #[trigger] before.producers.contains_key(id) ==> after.producers.contains_key(id)
        && after.producers[id].epoch >= before.producers[id].epoch
}

/// Whether transactions that have ended are still there and have ended alike.
pub open spec fn ends_stand(before: LogStateView, after: LogStateView) -> bool {
    forall|id: u128| #[trigger]
        before.transactions.contains_key(id) && before.transactions[id].status != TransactionStatus::Ongoing ==> after.transactions.contains_key(id)
            && after.transactions[id].status == before.transactions[id].status
}

/// A producer that is given its next epoch, or a new id, leaves everything in order.
proof fn bumps_are_orderly(
    s: LogStateView,
    transactional_id: Seq<char>,
    producer_id: i64,
    timeout_ms: i32,
    two_phase_commit: bool,
    current_transaction_id: Option<u128>,
    now_ms: i64,
)
    requires
        is_orderly(s),
        s.next_producer_id < i64::MAX,
        s.transactional_producers.contains_key(transactional_id),
        s.transactional_producers[transactional_id] == producer_id,
        current_transaction_id is Some ==> s.transactions.contains_key(current_transaction_id->0),
    ensures
        ({
            let (after, session) = producers::bumped(
                s,
                transactional_id,
                producer_id,
                timeout_ms,
                two_phase_commit,
                current_transaction_id,
                now_ms,
            );
            &&& is_orderly(after)
            &&& leaves_logs_alone(s, after)
            &&& epochs_grow(s, after)
            &&& after.transactions == s.transactions
            &&& after.offsets == s.offsets
            &&& after.transactional_producers.contains_key(transactional_id)
            &&& after.transactional_producers[transactional_id] == session.producer_id
            &&& after.producers[session.producer_id].epoch == session.producer_epoch
            &&& after.producers[session.producer_id].current_transaction_id == current_transaction_id
            &&& session.producer_id != producer_id ==> !s.producers.contains_key(session.producer_id)
            &&& session.producer_id == producer_id ==> session.producer_epoch > s.producers[producer_id].epoch
        }),
{
    let (after, session) = producers::bumped(s, transactional_id, producer_id, timeout_ms, two_phase_commit, current_transaction_id, now_ms);
    assert(s.producers.contains_key(producer_id));
    assert(producer_is_orderly(s, producer_id));
    let fresh = (s.next_producer_id + 1) as i64;
    assert(!s.producers.contains_key(fresh)) by {
        if s.producers.contains_key(fresh) {
            assert(producer_is_orderly(s, fresh));
        }
    }
    assert forall|id: i64| #[trigger] after.producers.contains_key(id) implies producer_is_orderly(after, id) by {
        if s.producers.contains_key(id) {
            assert(producer_is_orderly(s, id));
        }
    }
    assert forall|name: Seq<char>| #[trigger] after.transactional_producers.contains_key(name) implies after.producers.contains_key(
        after.transactional_producers[name],
    ) && after.producers[after.transactional_producers[name]].transactional_id == Some(name) by {
        if name != transactional_id {
            assert(s.transactional_producers.contains_key(name));
            assert(s.transactional_producers[name] != producer_id);
        }
    }
}

/// A producer that asks for a session leaves everything in order: no epoch goes back, and no log is
/// touched. Where a session is given it is one that no one had before: a new id, or a later epoch.
pub proof fn sessions_are_new(
    s: LogStateView,
    transactional_id: Option<Seq<char>>,
    transaction_timeout_ms: i32,
    current: Option<ProducerSession>,
    enable_2_pc: bool,
    keep_prepared_txn: bool,
    now_ms: i64,
)
    requires
        is_orderly(s),
        s.next_producer_id < i64::MAX,
    ensures
        ({
            let (after, answer) = producers::initialized(
                s,
                transactional_id,
                transaction_timeout_ms,
                current,
                enable_2_pc,
                keep_prepared_txn,
                now_ms,
            );
            &&& is_orderly(after)
            &&& leaves_logs_alone(s, after)
            &&& epochs_grow(s, after)
            &&& answer is Err ==> after == s
            &&& answer is Ok ==> {
                let session = answer->Ok_0.producer;
                &&& after.producers.contains_key(session.producer_id)
                &&& after.producers[session.producer_id].epoch == session.producer_epoch
                &&& after.producers[session.producer_id].transactional_id == transactional_id
                &&& s.producers.contains_key(session.producer_id) ==> session.producer_epoch > s.producers[session.producer_id].epoch
                &&& transactional_id is Some ==> transactions::producer_refusal(after, transactional_id->0, session) is None
            }
        }),
{
    let (after, answer) = producers::initialized(
        s,
        transactional_id,
        transaction_timeout_ms,
        current,
        enable_2_pc,
        keep_prepared_txn,
        now_ms,
    );
    let fresh = (s.next_producer_id + 1) as i64;
    assert(!s.producers.contains_key(fresh)) by {
        if s.producers.contains_key(fresh) {
            assert(producer_is_orderly(s, fresh));
        }
    }
    if answer is Ok && transactional_id is Some && s.transactional_producers.contains_key(transactional_id->0) {
        let name = transactional_id->0;
        let producer_id = s.transactional_producers[name];
        assert(producer_is_orderly(s, producer_id));
        let previous = s.producers[producer_id].current_transaction_id;
        let settled = if keep_prepared_txn {
            s.transactions
        } else {
            producers::with_status(s.transactions, previous, TransactionStatus::Aborted)
        };
        let changed = if enable_2_pc {
            producers::without_deadline(settled, previous)
        } else {
            settled
        };
        let middle = LogStateView { transactions: changed, ..s };
        assert forall|id: u128| #[trigger] middle.transactions.contains_key(id) implies s.transactions.contains_key(id) && count_up(
            middle.transactions[id].offsets,
        ) by {}
        assert forall|id: i64| #[trigger] middle.producers.contains_key(id) implies producer_is_orderly(middle, id) by {
            assert(producer_is_orderly(s, id));
        }
        let timeout_ms = producers::effective_timeout(transactional_id, transaction_timeout_ms)->Ok_0;
        bumps_are_orderly(
            middle,
            name,
            producer_id,
            timeout_ms,
            enable_2_pc,
            if keep_prepared_txn {
                previous
            } else {
                None
            },
            now_ms,
        );
        assert forall|id: i64| #[trigger] s.producers.contains_key(id) implies after.producers.contains_key(id) && after.producers[id].epoch
            >= s.producers[id].epoch by {
            assert(middle.producers.contains_key(id));
        }
    } else {
        assert forall|id: i64| #[trigger] after.producers.contains_key(id) implies producer_is_orderly(after, id) by {
            if s.producers.contains_key(id) {
                assert(producer_is_orderly(s, id));
            }
        }
        assert forall|name: Seq<char>| #[trigger] after.transactional_producers.contains_key(name) implies after.producers.contains_key(
            after.transactional_producers[name],
        ) && after.producers[after.transactional_producers[name]].transactional_id == Some(name) by {
            if s.transactional_producers.contains_key(name) {
                assert(s.producers.contains_key(s.transactional_producers[name]));
                if current is Some && transactional_id is None {
                    assert(s.transactional_producers[name] != current->0.producer_id || s.producers[current->0.producer_id].transactional_id is Some);
                }
            }
        }
    }
}

/// Once a producer has been given a new session, the one it had before is of no use: it can neither
/// write nor take part in a transaction.
pub proof fn earlier_sessions_are_fenced(
    s: LogStateView,
    transactional_id: Seq<char>,
    transaction_timeout_ms: i32,
    current: Option<ProducerSession>,
    enable_2_pc: bool,
    keep_prepared_txn: bool,
    now_ms: i64,
    earlier: ProducerSession,
    batch: BatchDraftView,
)
    requires
        is_orderly(s),
        s.next_producer_id < i64::MAX,
        transactions::producer_refusal(s, transactional_id, earlier) is None,
        batch.producer is Some,
        batch.producer->0.producer_id == earlier.producer_id,
        batch.producer->0.producer_epoch == earlier.producer_epoch,
        batch.transactional_id == Some(transactional_id),
        producers::initialized(
            s,
            Some(transactional_id),
            transaction_timeout_ms,
            current,
            enable_2_pc,
            keep_prepared_txn,
            now_ms,
        ).1 is Ok,
    ensures
        ({
            let after = producers::initialized(
                s,
                Some(transactional_id),
                transaction_timeout_ms,
                current,
                enable_2_pc,
                keep_prepared_txn,
                now_ms,
            ).0;
            &&& transactions::producer_refusal(after, transactional_id, earlier) is Some
            &&& log_append::batch_transaction(after, batch) is Err
        }),
{
    sessions_are_new(s, Some(transactional_id), transaction_timeout_ms, current, enable_2_pc, keep_prepared_txn, now_ms);
    let (after, answer) = producers::initialized(
        s,
        Some(transactional_id),
        transaction_timeout_ms,
        current,
        enable_2_pc,
        keep_prepared_txn,
        now_ms,
    );
    let session = answer->Ok_0.producer;
    assert(s.producers.contains_key(earlier.producer_id));
    if session.producer_id != earlier.producer_id {
        let middle = s;
        assert(after.producers[earlier.producer_id].transactional_id is None);
    }
}

/// A session that is not the present one of a transactional id is refused whatever it asks for, and
/// nothing changes: it cannot add partitions, groups or offsets, nor end the transaction, unless it
/// asks once more for the end that it was given.
pub proof fn stale_sessions_change_nothing(
    s: LogStateView,
    transactional_id: Seq<char>,
    producer: ProducerSession,
    partitions: Seq<PartitionKeyView>,
    group_id: Seq<char>,
    list: Seq<OffsetCommitView>,
    flag: bool,
    committed: bool,
    fresh: u128,
    now: int,
)
    requires
        transactions::producer_refusal(s, transactional_id, producer) is Some,
    ensures
        transactions::partitions_added(s, transactional_id, producer, partitions, flag, fresh, now).0 == s,
        transactions::partitions_added(s, transactional_id, producer, partitions, flag, fresh, now).1 is Err,
        transactions::group_added(s, transactional_id, producer, group_id, fresh, now).0 == s,
        transactions::group_added(s, transactional_id, producer, group_id, fresh, now).1 is Err,
        offsets::offsets_in_transaction(s, transactional_id, producer, group_id, flag, list, fresh, now).0 == s,
        offsets::offsets_in_transaction(s, transactional_id, producer, group_id, flag, list, fresh, now).1 is Err,
        transaction_ends::finished(s, transactional_id, producer, committed, flag, fresh, now).0 == s,
        transaction_ends::finished(s, transactional_id, producer, committed, flag, fresh, now).1 is Err || (flag && transaction_ends::is_repetition(
            s,
            s.transactional_producers[transactional_id],
            producer,
        )),
{
}

/// The transaction at hand leaves everything in order and no end undone.
proof fn transactions_at_hand_are_orderly(
    s: LogStateView,
    transactional_id: Seq<char>,
    producer: ProducerSession,
    create: bool,
    allow_prepared: bool,
    fresh: u128,
    now: int,
)
    requires
        is_orderly(s),
        !s.transactions.contains_key(fresh),
    ensures
        ({
            let (after, answer) = transactions::transaction_at_hand(s, transactional_id, producer, create, allow_prepared, fresh, now);
            &&& is_orderly(after)
            &&& leaves_logs_alone(s, after)
            &&& after.offsets == s.offsets
            &&& after.transactional_producers == s.transactional_producers
            &&& after.next_producer_id == s.next_producer_id
            &&& after.producers.dom() == s.producers.dom()
            &&& epochs_grow(s, after)
            &&& ends_stand(s, after)
            &&& answer is Err ==> after == s
            &&& answer is Ok ==> {
                &&& transactions::producer_refusal(s, transactional_id, producer) is None
                &&& after.transactions.contains_key(answer->Ok_0)
                &&& after.transactions[answer->Ok_0].status == TransactionStatus::Ongoing
                &&& after.producers[producer.producer_id].current_transaction_id == Some(answer->Ok_0)
            }
        }),
{
    let (after, answer) = transactions::transaction_at_hand(s, transactional_id, producer, create, allow_prepared, fresh, now);
    assert(after.producers.dom() =~= s.producers.dom());
    assert forall|id: i64| #[trigger] after.producers.contains_key(id) implies producer_is_orderly(after, id) by {
        assert(producer_is_orderly(s, id));
    }
    assert forall|name: Seq<char>| #[trigger] after.transactional_producers.contains_key(name) implies after.producers.contains_key(
        after.transactional_producers[name],
    ) && after.producers[after.transactional_producers[name]].transactional_id == Some(name) by {
        assert(s.transactional_producers.contains_key(name));
    }
}

/// Adding partitions or a group to a transaction leaves everything in order: no log is touched, no
/// stored offset changes, and transactions that have ended have ended.
pub proof fn additions_keep_order(
    s: LogStateView,
    transactional_id: Seq<char>,
    producer: ProducerSession,
    partitions: Seq<PartitionKeyView>,
    verify_only: bool,
    group_id: Seq<char>,
    fresh: u128,
    now: int,
)
    requires
        is_orderly(s),
        !s.transactions.contains_key(fresh),
    ensures
        ({
            let (first, answer) = transactions::partitions_added(s, transactional_id, producer, partitions, verify_only, fresh, now);
            &&& is_orderly(first)
            &&& leaves_logs_alone(s, first)
            &&& epochs_grow(s, first)
            &&& ends_stand(s, first)
            &&& first.offsets == s.offsets
            &&& answer is Err || verify_only ==> first == s
        }),
        ({
            let (second, answer) = transactions::group_added(s, transactional_id, producer, group_id, fresh, now);
            &&& is_orderly(second)
            &&& leaves_logs_alone(s, second)
            &&& epochs_grow(s, second)
            &&& ends_stand(s, second)
            &&& second.offsets == s.offsets
            &&& answer is Err ==> second == s
        }),
{
    transactions_at_hand_are_orderly(s, transactional_id, producer, true, false, fresh, now);
    let (at_hand, id) = transactions::transaction_at_hand(s, transactional_id, producer, true, false, fresh, now);
    let first = transactions::partitions_added(s, transactional_id, producer, partitions, verify_only, fresh, now).0;
    let second = transactions::group_added(s, transactional_id, producer, group_id, fresh, now).0;
    if id is Ok {
        if transactions::first_missing(s, partitions) is None && !verify_only {
            later_states_are_orderly(at_hand, first);
        }
        if group_id.len() > 0 {
            later_states_are_orderly(at_hand, second);
        }
        assert forall|other: u128| #[trigger]
            s.transactions.contains_key(other) && s.transactions[other].status != TransactionStatus::Ongoing
                implies at_hand.transactions.contains_key(other)
            && at_hand.transactions[other].status == s.transactions[other].status && other != id->Ok_0 by {}
        assert forall|other: i64| #[trigger] s.producers.contains_key(other) implies at_hand.producers.contains_key(other) by {}
    }
}

/// A state in which only transactions hold more, and producers were seen later, is in order.
proof fn later_states_are_orderly(before: LogStateView, after: LogStateView)
    requires
        is_orderly(before),
        after.next_producer_id == before.next_producer_id,
        after.transactional_producers == before.transactional_producers,
        after.offsets == before.offsets,
        forall|id: i64| #[trigger] after.producers.contains_key(id) <==> before.producers.contains_key(id),
        forall|id: i64| #[trigger]
            before.producers.contains_key(id) ==> {
                &&& after.producers[id].transactional_id == before.producers[id].transactional_id
                &&& after.producers[id].current_transaction_id == before.producers[id].current_transaction_id
            },
        forall|id: u128| #[trigger] after.transactions.contains_key(id) <==> before.transactions.contains_key(id),
        forall|id: u128| #[trigger] before.transactions.contains_key(id) ==> after.transactions[id].offsets == before.transactions[id].offsets,
    ensures
        is_orderly(after),
{
    assert forall|id: i64| #[trigger] after.producers.contains_key(id) implies producer_is_orderly(after, id) by {
        assert(producer_is_orderly(before, id));
    }
    assert forall|name: Seq<char>| #[trigger] after.transactional_producers.contains_key(name) implies after.producers.contains_key(
        after.transactional_producers[name],
    ) && after.producers[after.transactional_producers[name]].transactional_id == Some(name) by {
        assert(before.transactional_producers.contains_key(name));
    }
}

/// What comes of storing some offsets: for each partition of the list the last one of the list, for
/// all others what was stored.
proof fn stored_offsets_are_the_last(
    held: Map<(Seq<char>, PartitionKeyView), CommittedOffsetView>,
    group_id: Seq<char>,
    list: Seq<OffsetCommitView>,
    now_ms: i64,
)
    ensures
        ({
            let (after, outcome) = offsets::offsets_stored(held, group_id, list, now_ms);
            &&& forall|key: (Seq<char>, PartitionKeyView)| #[trigger] held.contains_key(key) ==> after.contains_key(key)
            &&& forall|key: (Seq<char>, PartitionKeyView)| #[trigger]
                after.contains_key(key) && (key.0 != group_id || !offsets_name(list, key.1)) ==> held.contains_key(key) && after[key] == held[key]
            &&& outcome is Ok ==> forall|i: int|
                #![trigger list[i]]
                0 <= i < list.len() && !offsets_name(list.skip(i + 1), list[i].partition) ==> {
                    let key = (group_id, list[i].partition);
                    &&& offsets::expiry(now_ms, list[i].retention_time_ms) is Ok
                    &&& after.contains_key(key)
                    &&& after[key] == offsets::stored_offset(list[i], now_ms, offsets::expiry(now_ms, list[i].retention_time_ms)->Ok_0)
                }
        }),
    decreases list.len(),
{
    let (after, outcome) = offsets::offsets_stored(held, group_id, list, now_ms);
    if list.len() > 0 {
        let fewer = list.drop_last();
        stored_offsets_are_the_last(held, group_id, fewer, now_ms);
        let (before, reached) = offsets::offsets_stored(held, group_id, fewer, now_ms);
        let last = list.len() - 1;
        assert forall|key: (Seq<char>, PartitionKeyView)| #[trigger] after.contains_key(key) && (key.0 != group_id
            || !offsets_name(list, key.1)) implies held.contains_key(
            key,
        ) && after[key] == held[key] by {
            assert(list[last] == list.last());
            if offsets_name(fewer, key.1) {
                let j = choose|j: int| 0 <= j < fewer.len() && (#[trigger] fewer[j]).partition == key.1;
                assert(list[j] == fewer[j]);
            }
            assert(before.contains_key(key));
        }
        if outcome is Ok {
            assert forall|i: int| #![trigger list[i]] 0 <= i < list.len() && !offsets_name(list.skip(i + 1), list[i].partition) implies {
                let key = (group_id, list[i].partition);
                &&& offsets::expiry(now_ms, list[i].retention_time_ms) is Ok
                &&& after.contains_key(key)
                &&& after[key] == offsets::stored_offset(list[i], now_ms, offsets::expiry(now_ms, list[i].retention_time_ms)->Ok_0)
            } by {
                if i < last {
                    assert(fewer[i] == list[i]);
                    assert(list.skip(i + 1)[last - i - 1] == list[last]);
                    assert(list[last].partition != list[i].partition);
                    if offsets_name(fewer.skip(i + 1), list[i].partition) {
                        let j = choose|j: int| 0 <= j < fewer.skip(i + 1).len() && (#[trigger] fewer.skip(i + 1)[j]).partition == list[i].partition;
                        assert(list.skip(i + 1)[j] == fewer.skip(i + 1)[j]);
                    }
                }
            }
        }
    }
}

/// Stored offsets are none of them negative where those of the list are not.
proof fn stored_offsets_count_up(
    held: Map<(Seq<char>, PartitionKeyView), CommittedOffsetView>,
    group_id: Seq<char>,
    list: Seq<OffsetCommitView>,
    now_ms: i64,
)
    requires
        count_up(held),
        forall|i: int| 0 <= i < list.len() ==> (#[trigger] list[i]).offset >= 0,
    ensures
        count_up(offsets::offsets_stored(held, group_id, list, now_ms).0),
    decreases list.len(),
{
    if list.len() > 0 {
        let fewer = list.drop_last();
        assert forall|i: int| 0 <= i < fewer.len() implies (#[trigger] fewer[i]).offset >= 0 by {
            assert(list[i].offset >= 0);
        }
        assert(list[list.len() - 1].offset >= 0);
        stored_offsets_count_up(held, group_id, fewer, now_ms);
    }
}

/// Whether a list of offsets names a partition.
pub open spec fn offsets_name(list: Seq<OffsetCommitView>, p: PartitionKeyView) -> bool {
    exists|i: int| 0 <= i < list.len() && (#[trigger] list[i]).partition == p
}

/// Offsets that pass the check are none of them negative.
proof fn checked_offsets_count_up(s: LogStateView, list: Seq<OffsetCommitView>)
    requires
        offsets::offsets_refusal(s, list) is None,
    ensures
        forall|i: int| 0 <= i < list.len() ==> (#[trigger] list[i]).offset >= 0 && s.partitions.contains_key(list[i].partition),
    decreases list.len(),
{
    if list.len() > 0 {
        checked_offsets_count_up(s, list.drop_first());
        assert forall|i: int| 0 <= i < list.len() implies (#[trigger] list[i]).offset >= 0 && s.partitions.contains_key(list[i].partition) by {
            if i > 0 {
                assert(list.drop_first()[i - 1] == list[i]);
            }
        }
    }
}

/// Stored offsets are read back: of several for one partition the last. The offsets of other groups
/// and partitions stay as they were, and everything stays in order.
pub proof fn stored_offsets_are_read_back(s: LogStateView, group_id: Seq<char>, list: Seq<OffsetCommitView>, now_ms: i64, i: int)
    requires
        is_orderly(s),
        offsets::offsets_committed(s, group_id, list, now_ms).1 is Ok,
        0 <= i < list.len(),
        !offsets_name(list.skip(i + 1), list[i].partition),
    ensures
        ({
            let after = offsets::offsets_committed(s, group_id, list, now_ms).0;
            let p = list[i].partition;
            let found = offsets::offsets_of(after, group_id, seq![p]);
            &&& is_orderly(after)
            &&& leaves_logs_alone(s, after)
            &&& found.contains_key(p)
            &&& found[p] == offsets::stored_offset(list[i], now_ms, offsets::expiry(now_ms, list[i].retention_time_ms)->Ok_0)
            &&& forall|key: (Seq<char>, PartitionKeyView)| #[trigger]
                after.offsets.contains_key(key) && (key.0 != group_id || !offsets_name(list, key.1)) ==> s.offsets.contains_key(key)
                    && after.offsets[key] == s.offsets[key]
            &&& forall|key: (Seq<char>, PartitionKeyView)| #[trigger] s.offsets.contains_key(key) ==> after.offsets.contains_key(key)
        }),
{
    stored_offsets_are_the_last(s.offsets, group_id, list, now_ms);
    checked_offsets_count_up(s, list);
    stored_offsets_count_up(s.offsets, group_id, list, now_ms);
    let after = offsets::offsets_committed(s, group_id, list, now_ms).0;
    assert(seq![list[i].partition].contains(list[i].partition)) by {
        assert(seq![list[i].partition][0] == list[i].partition);
    }
    assert forall|id: i64| #[trigger] after.producers.contains_key(id) implies producer_is_orderly(after, id) by {
        assert(producer_is_orderly(s, id));
    }
}

/// Offsets that are stored in a transaction are not to be seen before the transaction is committed:
/// no stored offset changes. Everything stays in order.
pub proof fn offsets_in_transactions_are_held_back(
    s: LogStateView,
    transactional_id: Seq<char>,
    producer: ProducerSession,
    group_id: Seq<char>,
    add_group: bool,
    list: Seq<OffsetCommitView>,
    fresh: u128,
    now: int,
)
    requires
        is_orderly(s),
        !s.transactions.contains_key(fresh),
    ensures
        ({
            let (after, answer) = offsets::offsets_in_transaction(s, transactional_id, producer, group_id, add_group, list, fresh, now);
            &&& is_orderly(after)
            &&& leaves_logs_alone(s, after)
            &&& epochs_grow(s, after)
            &&& ends_stand(s, after)
            &&& after.offsets == s.offsets
        }),
{
    let (after, answer) = offsets::offsets_in_transaction(s, transactional_id, producer, group_id, add_group, list, fresh, now);
    if offsets::offsets_refusal(s, list) is None {
        transactions_at_hand_are_orderly(s, transactional_id, producer, add_group, false, fresh, now);
        checked_offsets_count_up(s, list);
        let (at_hand, id) = transactions::transaction_at_hand(s, transactional_id, producer, add_group, false, fresh, now);
        if id is Ok {
            let now_ms = crate::time::whole_millis(now) as i64;
            stored_offsets_count_up(at_hand.transactions[id->Ok_0].offsets, group_id, list, now_ms);
            assert forall|other: u128| #[trigger]
                s.transactions.contains_key(other) && s.transactions[other].status != TransactionStatus::Ongoing
                    implies at_hand.transactions.contains_key(other)
                && at_hand.transactions[other].status == s.transactions[other].status && other != id->Ok_0 by {}
            assert forall|other: i64| #[trigger] s.producers.contains_key(other) implies at_hand.producers.contains_key(other) by {}
            assert forall|other: i64| #[trigger] after.producers.contains_key(other) implies producer_is_orderly(after, other) by {
                assert(at_hand.producers.contains_key(other));
                assert(producer_is_orderly(at_hand, other));
            }
            assert forall|name: Seq<char>| #[trigger] after.transactional_producers.contains_key(name) implies after.producers.contains_key(
                after.transactional_producers[name],
            ) && after.producers[after.transactional_producers[name]].transactional_id == Some(name) by {
                assert(at_hand.transactional_producers.contains_key(name));
            }
            assert forall|other: u128| #[trigger] after.transactions.contains_key(other) implies count_up(after.transactions[other].offsets) by {
                assert(at_hand.transactions.contains_key(other));
                assert(count_up(at_hand.transactions[other].offsets));
            }
        }
    }
}

/// What comes of a request to end a transaction. A refused request changes nothing. An accepted one
/// ends the open transaction as asked for; the offsets that it held are stored where it was
/// committed, and dropped where it was not. Everything stays in order.
pub proof fn ends_settle_transactions(
    s: LogStateView,
    transactional_id: Seq<char>,
    producer: ProducerSession,
    committed: bool,
    bump_epoch: bool,
    fresh: u128,
    now: int,
)
    requires
        is_orderly(s),
        s.next_producer_id < i64::MAX,
        !s.transactions.contains_key(fresh),
    ensures
        ({
            let (after, answer) = transaction_ends::finished(s, transactional_id, producer, committed, bump_epoch, fresh, now);
            let repeats = bump_epoch && transaction_ends::is_repetition(s, s.transactional_producers[transactional_id], producer);
            let (at_hand, id) = transactions::transaction_at_hand(s, transactional_id, producer, bump_epoch && !committed, true, fresh, now);
            &&& is_orderly(after)
            &&& leaves_logs_alone(s, after)
            &&& epochs_grow(s, after)
            &&& ends_stand(s, after)
            &&& answer is Err || repeats ==> after == s
            &&& answer is Ok && !repeats ==> {
                &&& id is Ok
                &&& log_reads::is_ongoing(at_hand.transactions, id->Ok_0)
                &&& after.transactions[id->Ok_0].status == transaction_ends::ended(committed)
                &&& after.transactions[id->Ok_0].offsets == at_hand.transactions[id->Ok_0].offsets
                &&& after.offsets == (if committed {
                    s.offsets.union_prefer_right(at_hand.transactions[id->Ok_0].offsets)
                } else {
                    s.offsets
                })
                &&& forall|span: StoredSpanView| #[trigger]
                    log_reads::is_visible(after.transactions, span) == (if span.transaction_id == Some(id->Ok_0) {
                        committed
                    } else {
                        log_reads::is_visible(s.transactions, span)
                    })
            }
        }),
{
    let (after, answer) = transaction_ends::finished(s, transactional_id, producer, committed, bump_epoch, fresh, now);
    let repeats = bump_epoch && transaction_ends::is_repetition(s, s.transactional_producers[transactional_id], producer);
    let (at_hand, id) = transactions::transaction_at_hand(s, transactional_id, producer, bump_epoch && !committed, true, fresh, now);
    transactions_at_hand_are_orderly(s, transactional_id, producer, bump_epoch && !committed, true, fresh, now);
    if answer is Ok && !repeats {
        let at = id->Ok_0;
        let transaction = at_hand.transactions[at];
        let over = MemoryTransactionView {
            status: transaction_ends::ended(committed),
            producer: if bump_epoch {
                producer
            } else {
                transaction.producer
            },
            ..transaction
        };
        let middle = transaction_ends::settled(at_hand, at, over, committed);
        assert(count_up(transaction.offsets));
        assert(count_up(middle.offsets)) by {
            assert forall|key: (Seq<char>, PartitionKeyView)| #[trigger] middle.offsets.contains_key(key) implies middle.offsets[key].offset >= 0 by {
                if committed && transaction.offsets.contains_key(key) {
                } else {
                    assert(at_hand.offsets.contains_key(key));
                }
            }
        }
        assert forall|other: i64| #[trigger] middle.producers.contains_key(other) implies producer_is_orderly(middle, other) by {
            assert(producer_is_orderly(at_hand, other));
        }
        assert forall|name: Seq<char>| #[trigger] middle.transactional_producers.contains_key(name) implies middle.producers.contains_key(
            middle.transactional_producers[name],
        ) && middle.producers[middle.transactional_producers[name]].transactional_id == Some(name) by {
            assert(at_hand.transactional_producers.contains_key(name));
        }
        assert forall|other: u128| #[trigger] middle.transactions.contains_key(other) implies count_up(middle.transactions[other].offsets) by {
            assert(at_hand.transactions.contains_key(other));
        }
        assert(is_orderly(middle));
        let stored = middle.producers[producer.producer_id];
        if bump_epoch {
            bumps_are_orderly(
                middle,
                transactional_id,
                producer.producer_id,
                stored.transaction_timeout_ms,
                stored.two_phase_commit,
                Some(at),
                crate::time::whole_millis(now) as i64,
            );
        } else {
            assert forall|other: i64| #[trigger] after.producers.contains_key(other) implies producer_is_orderly(after, other) by {
                assert(middle.producers.contains_key(other));
                assert(producer_is_orderly(middle, other));
            }
            assert forall|name: Seq<char>| #[trigger] after.transactional_producers.contains_key(name) implies after.producers.contains_key(
                after.transactional_producers[name],
            ) && after.producers[after.transactional_producers[name]].transactional_id == Some(name) by {
                assert(middle.transactional_producers.contains_key(name));
            }
        }
        assert(after.transactions == middle.transactions);
        assert forall|other: i64| #[trigger] s.producers.contains_key(other) implies after.producers.contains_key(other)
            && after.producers[other].epoch
            >= s.producers[other].epoch by {
            assert(at_hand.producers.contains_key(other));
            assert(middle.producers.contains_key(other));
        }
        assert forall|other: u128| #[trigger]
            s.transactions.contains_key(other) && s.transactions[other].status != TransactionStatus::Ongoing
                implies after.transactions.contains_key(other)
            && after.transactions[other].status == s.transactions[other].status by {
            assert(at_hand.transactions.contains_key(other));
        }
        assert forall|span: StoredSpanView| #[trigger]
            log_reads::is_visible(after.transactions, span) == (if span.transaction_id == Some(at) {
                committed
            } else {
                log_reads::is_visible(s.transactions, span)
            }) by {}
    }
}

/// The offsets that a committed transaction held are what their groups read.
pub proof fn committed_offsets_are_read_back(
    s: LogStateView,
    transactional_id: Seq<char>,
    producer: ProducerSession,
    bump_epoch: bool,
    fresh: u128,
    now: int,
    id: u128,
    group_id: Seq<char>,
    p: PartitionKeyView,
)
    requires
        is_orderly(s),
        s.next_producer_id < i64::MAX,
        !s.transactions.contains_key(fresh),
        transactions::producer_refusal(s, transactional_id, producer) is None,
        s.producers[producer.producer_id].current_transaction_id == Some(id),
        log_reads::is_ongoing(s.transactions, id),
        s.transactions[id].offsets.contains_key((group_id, p)),
    ensures
        ({
            let (after, answer) = transaction_ends::finished(s, transactional_id, producer, true, bump_epoch, fresh, now);
            let found = offsets::offsets_of(after, group_id, seq![p]);
            &&& answer is Ok
            &&& found.contains_key(p)
            &&& found[p] == s.transactions[id].offsets[(group_id, p)]
        }),
        ({
            let (after, answer) = transaction_ends::finished(s, transactional_id, producer, false, bump_epoch, fresh, now);
            answer is Ok && after.offsets == s.offsets
        }),
{
    ends_settle_transactions(s, transactional_id, producer, true, bump_epoch, fresh, now);
    ends_settle_transactions(s, transactional_id, producer, false, bump_epoch, fresh, now);
    assert(seq![p].contains(p)) by {
        assert(seq![p][0] == p);
    }
}

/// A producer that asks once more for the end of its transaction, with the epoch with which it asked
/// before, is answered as it was the first time, and nothing changes. It is refused the opposite end.
pub proof fn repeated_ends_are_answered_alike(
    s: LogStateView,
    transactional_id: Seq<char>,
    producer: ProducerSession,
    committed: bool,
    fresh: u128,
    now: int,
    other: u128,
    later: int,
)
    requires
        is_orderly(s),
        s.next_producer_id < i64::MAX,
        !s.transactions.contains_key(fresh),
        transaction_ends::finished(s, transactional_id, producer, committed, true, fresh, now).1 is Ok,
    ensures
        ({
            let (after, answer) = transaction_ends::finished(s, transactional_id, producer, committed, true, fresh, now);
            &&& transaction_ends::finished(after, transactional_id, producer, committed, true, other, later) == (after, answer)
            &&& transaction_ends::finished(after, transactional_id, producer, !committed, true, other, later).0 == after
            &&& transaction_ends::finished(after, transactional_id, producer, !committed, true, other, later).1 is Err
        }),
{
    let (after, answer) = transaction_ends::finished(s, transactional_id, producer, committed, true, fresh, now);
    ends_settle_transactions(s, transactional_id, producer, committed, true, fresh, now);
    let repeats = transaction_ends::is_repetition(s, s.transactional_producers[transactional_id], producer);
    if !repeats {
        let (at_hand, id) = transactions::transaction_at_hand(s, transactional_id, producer, !committed, true, fresh, now);
        transactions_at_hand_are_orderly(s, transactional_id, producer, !committed, true, fresh, now);
        let at = id->Ok_0;
        let over = MemoryTransactionView { status: transaction_ends::ended(committed), producer, ..at_hand.transactions[at] };
        let middle = transaction_ends::settled(at_hand, at, over, committed);
        let stored = middle.producers[producer.producer_id];
        assert(after == producers::bumped(
            middle,
            transactional_id,
            producer.producer_id,
            stored.transaction_timeout_ms,
            stored.two_phase_commit,
            Some(at),
            crate::time::whole_millis(now) as i64,
        ).0);
        let session = answer->Ok_0;
        assert(after.transactional_producers[transactional_id] == session.producer_id);
        assert(after.producers[session.producer_id].current_transaction_id == Some(at));
        assert(after.transactions[at] == over);
        assert(after.producers[session.producer_id].epoch == session.producer_epoch);
    }
}

/// A coordinator's marker leaves everything in order: no log is touched, no epoch goes back, and
/// transactions that have ended have ended. A refused marker changes nothing.
pub proof fn markers_keep_order(
    s: LogStateView,
    producer: ProducerSession,
    partitions: Seq<PartitionKeyView>,
    committed: bool,
    coordinator_epoch: i32,
    transaction_version: i8,
    now_ms: i64,
)
    requires
        is_orderly(s),
    ensures
        ({
            let (after, answer) = transaction_ends::marker_written(
                s,
                producer,
                partitions,
                committed,
                coordinator_epoch,
                transaction_version,
                now_ms,
            );
            &&& is_orderly(after)
            &&& leaves_logs_alone(s, after)
            &&& epochs_grow(s, after)
            &&& ends_stand(s, after)
            &&& answer is Err ==> after == s
            &&& !committed ==> after.offsets == s.offsets
        }),
{
    let (after, answer) = transaction_ends::marker_written(s, producer, partitions, committed, coordinator_epoch, transaction_version, now_ms);
    if answer is Ok {
        let p = transaction_ends::of_producer(producer.producer_id);
        let id = transaction_ends::newest(s.transactions, p, true)->0;
        assert(transaction_ends::is_newest(s.transactions, p, true, id));
        let transaction = s.transactions[id];
        assert(count_up(transaction.offsets));
        assert forall|key: (Seq<char>, PartitionKeyView)| #[trigger] after.offsets.contains_key(key) implies after.offsets[key].offset >= 0 by {
            if committed && transaction.offsets.contains_key(key) {
            } else {
                assert(s.offsets.contains_key(key));
            }
            if s.offsets.contains_key(key) {
            }
        }
        assert forall|other: i64| #[trigger] after.producers.contains_key(other) implies producer_is_orderly(after, other) by {
            assert(s.producers.contains_key(other));
            assert(producer_is_orderly(s, other));
        }
        assert forall|name: Seq<char>| #[trigger] after.transactional_producers.contains_key(name) implies after.producers.contains_key(
            after.transactional_producers[name],
        ) && after.producers[after.transactional_producers[name]].transactional_id == Some(name) by {
            assert(s.transactional_producers.contains_key(name));
        }
        assert forall|other: u128| #[trigger] after.transactions.contains_key(other) implies count_up(after.transactions[other].offsets) by {
            assert(s.transactions.contains_key(other));
        }
    }
}

/// Whether a transaction is the last of its producer: every other one has ended, and started earlier.
pub open spec fn is_last(s: LogStateView, producer_id: i64, id: u128) -> bool {
    forall|other: u128| #[trigger]
        s.transactions.contains_key(other) && s.transactions[other].producer.producer_id == producer_id && other != id
            ==> s.transactions[other].status != TransactionStatus::Ongoing && transaction_ends::ranked_before(
            s.transactions[other],
            other,
            s.transactions[id],
            id,
            false,
        )
}

proof fn newest_is_the_one(
    transactions: Map<u128, MemoryTransactionView>,
    p: spec_fn(MemoryTransactionView) -> bool,
    open_last: bool,
    id: u128,
)
    requires
        transaction_ends::is_newest(transactions, p, open_last, id),
    ensures
        transaction_ends::newest(transactions, p, open_last) == Some(id),
{
    let found = transaction_ends::newest(transactions, p, open_last)->0;
    assert(transaction_ends::is_newest(transactions, p, open_last, found));
    assert(transactions.contains_key(found) && transactions.contains_key(id));
}

proof fn markers_have_a_highest(transactions: Map<u128, MemoryTransactionView>, producer_id: i64, epoch: i32)
    requires
        transaction_ends::marked_at(transactions, producer_id, epoch),
    ensures
        exists|highest: i32| transaction_ends::is_highest_marker(transactions, producer_id, highest) && highest >= epoch,
    decreases i32::MAX - epoch,
{
    if !transaction_ends::is_highest_marker(transactions, producer_id, epoch) {
        let other = choose|other: i32| #[trigger] transaction_ends::marked_at(transactions, producer_id, other) && other > epoch;
        markers_have_a_highest(transactions, producer_id, other);
        let highest = choose|highest: i32|
            transaction_ends::is_highest_marker(transactions, producer_id, highest) && highest >= other;
        assert(transaction_ends::is_highest_marker(transactions, producer_id, highest) && highest >= epoch);
    }
}

/// The highest coordinator epoch after a marker is that of the marker.
proof fn markers_are_the_highest(
    s: LogStateView,
    producer: ProducerSession,
    partitions: Seq<PartitionKeyView>,
    committed: bool,
    coordinator_epoch: i32,
    transaction_version: i8,
    now_ms: i64,
)
    requires
        transaction_ends::marker_written(s, producer, partitions, committed, coordinator_epoch, transaction_version, now_ms).1 is Ok,
    ensures
        transaction_ends::highest_marker(
            transaction_ends::marker_written(s, producer, partitions, committed, coordinator_epoch, transaction_version, now_ms).0.transactions,
            producer.producer_id,
        ) == Some(coordinator_epoch),
{
    let pid = producer.producer_id;
    let after = transaction_ends::marker_written(s, producer, partitions, committed, coordinator_epoch, transaction_version, now_ms).0;
    let p = transaction_ends::of_producer(pid);
    let id = transaction_ends::newest(s.transactions, p, true)->0;
    assert(transaction_ends::is_newest(s.transactions, p, true, id));
    assert(after.transactions.contains_key(id) && after.transactions[id].producer.producer_id == pid
        && after.transactions[id].marker_coordinator_epoch == Some(coordinator_epoch));
    assert(transaction_ends::marked_at(after.transactions, pid, coordinator_epoch));
    assert forall|epoch: i32| #[trigger] transaction_ends::marked_at(after.transactions, pid, epoch) implies epoch <= coordinator_epoch by {
        let at = choose|at: u128| #[trigger]
            after.transactions.contains_key(at) && after.transactions[at].producer.producer_id == pid
                && after.transactions[at].marker_coordinator_epoch == Some(epoch);
        if at != id {
            assert(s.transactions.contains_key(at));
            assert(transaction_ends::marked_at(s.transactions, pid, epoch));
            markers_have_a_highest(s.transactions, pid, epoch);
            let highest = transaction_ends::highest_marker(s.transactions, pid)->0;
            assert(transaction_ends::is_highest_marker(s.transactions, pid, highest));
        }
    }
    assert(transaction_ends::is_highest_marker(after.transactions, pid, coordinator_epoch));
}

/// A coordinator's marker that is written once more changes no stored offset, no transaction and no
/// epoch: only the instant at which the producer was last heard of moves on. The opposite marker and
/// one of an earlier coordinator are refused, and change nothing.
pub proof fn repeated_markers_change_nothing(
    s: LogStateView,
    producer: ProducerSession,
    partitions: Seq<PartitionKeyView>,
    committed: bool,
    coordinator_epoch: i32,
    transaction_version: i8,
    now_ms: i64,
    later_ms: i64,
    opposite: bool,
    earlier_epoch: i32,
)
    requires
        transaction_ends::marker_written(s, producer, partitions, committed, coordinator_epoch, transaction_version, now_ms).1 is Ok,
        ({
            let id = transaction_ends::newest(s.transactions, transaction_ends::of_producer(producer.producer_id), true)->0;
            s.transactions[id].status == TransactionStatus::Ongoing ==> is_last(s, producer.producer_id, id)
        }),
        earlier_epoch < coordinator_epoch,
    ensures
        ({
            let after = transaction_ends::marker_written(
                s,
                producer,
                partitions,
                committed,
                coordinator_epoch,
                transaction_version,
                now_ms,
            ).0;
            &&& transaction_ends::marker_written(after, producer, partitions, committed, coordinator_epoch, transaction_version, later_ms) == (
                LogStateView {
                    producers: if after.producers.contains_key(producer.producer_id) {
                        transactions::touched(after.producers, producer.producer_id, later_ms)
                    } else {
                        after.producers
                    },
                    ..after
                },
                Ok::<(), ControlErrorView>(()),
            )
            &&& transaction_ends::marker_written(after, producer, partitions, !committed, coordinator_epoch, transaction_version, later_ms) == (
                after,
                Err::<(), ControlErrorView>(
                    ControlErrorView::InvalidTransactionState("the completed transaction has the opposite result"@),
                ),
            )
            &&& transaction_ends::marker_written(
                after,
                producer,
                partitions,
                if opposite {
                    !committed
                } else {
                    committed
                },
                earlier_epoch,
                transaction_version,
                later_ms,
            ) == (
                after,
                Err::<(), ControlErrorView>(
                    ControlErrorView::TransactionCoordinatorFenced {
                        producer_id: producer.producer_id,
                        current_epoch: coordinator_epoch,
                        requested_epoch: earlier_epoch,
                    },
                ),
            )
        }),
{
    let pid = producer.producer_id;
    let after = transaction_ends::marker_written(s, producer, partitions, committed, coordinator_epoch, transaction_version, now_ms).0;
    let p = transaction_ends::of_producer(pid);
    let id = transaction_ends::newest(s.transactions, p, true)->0;
    assert(transaction_ends::is_newest(s.transactions, p, true, id));
    assert forall|other: u128| #[trigger] after.transactions.contains_key(other) && p(after.transactions[other]) implies other == id
        || transaction_ends::ranked_before(after.transactions[other], other, after.transactions[id], id, true) by {
        assert(s.transactions.contains_key(other));
        if other != id {
            assert(after.transactions[other] == s.transactions[other]);
        }
    }
    assert(transaction_ends::is_newest(after.transactions, p, true, id));
    newest_is_the_one(after.transactions, p, true, id);
    markers_are_the_highest(s, producer, partitions, committed, coordinator_epoch, transaction_version, now_ms);
    let again = transaction_ends::marker_written(after, producer, partitions, committed, coordinator_epoch, transaction_version, later_ms).0;
    assert(again.transactions =~= after.transactions);
    if after.producers.contains_key(pid) {
        assert(again.producers =~= transactions::touched(after.producers, pid, later_ms));
    }
}

/// Transactions that have run out of time are aborted, all of them and no others: afterwards none has
/// run out of time, and what had ended has ended. No offset and no log changes.
pub proof fn timeouts_abort_what_is_overdue(s: LogStateView, now: int)
    requires
        is_orderly(s),
    ensures
        ({
            let after = transaction_queries::timed_out(s, now);
            &&& is_orderly(after)
            &&& leaves_logs_alone(s, after)
            &&& epochs_grow(s, after)
            &&& ends_stand(s, after)
            &&& after.offsets == s.offsets
            &&& after.transactions.dom() == s.transactions.dom()
            &&& forall|id: u128| #[trigger]
                s.transactions.contains_key(id) ==> {
                    &&& !transaction_queries::has_timed_out(after.transactions[id], now)
                    &&& transaction_queries::has_timed_out(s.transactions[id], now) ==> after.transactions[id].status == TransactionStatus::Aborted
                    &&& !transaction_queries::has_timed_out(s.transactions[id], now) ==> after.transactions[id] == s.transactions[id]
                }
        }),
{
    let after = transaction_queries::timed_out(s, now);
    assert(after.transactions.dom() =~= s.transactions.dom());
    assert(after.producers.dom() =~= s.producers.dom());
    assert forall|other: i64| #[trigger] after.producers.contains_key(other) implies producer_is_orderly(after, other) by {
        assert(s.producers.contains_key(other));
        assert(producer_is_orderly(s, other));
    }
    assert forall|name: Seq<char>| #[trigger] after.transactional_producers.contains_key(name) implies after.producers.contains_key(
        after.transactional_producers[name],
    ) && after.producers[after.transactional_producers[name]].transactional_id == Some(name) by {
        assert(s.transactional_producers.contains_key(name));
    }
    assert forall|other: u128| #[trigger] after.transactions.contains_key(other) implies count_up(after.transactions[other].offsets) by {
        assert(s.transactions.contains_key(other));
    }
}

/// A producer that takes its transactional id up again leaves transactions that have ended as they
/// ended, as long as its own latest transaction is open or was given up.
pub proof fn new_sessions_leave_ends_alone(
    s: LogStateView,
    transactional_id: Option<Seq<char>>,
    transaction_timeout_ms: i32,
    current: Option<ProducerSession>,
    enable_2_pc: bool,
    keep_prepared_txn: bool,
    now_ms: i64,
)
    requires
        ({
            let id = s.producers[s.transactional_producers[transactional_id->0]].current_transaction_id;
            transactional_id is Some && s.transactional_producers.contains_key(transactional_id->0) && id is Some
                && s.transactions.contains_key(id->0)
                ==> s.transactions[id->0].status != TransactionStatus::Committed
        }),
    ensures
        ends_stand(
            s,
            producers::initialized(s, transactional_id, transaction_timeout_ms, current, enable_2_pc, keep_prepared_txn, now_ms).0,
        ),
{
}

/// A batch leaves producers in order: only what its partition remembers of its producer changes.
pub proof fn batches_keep_order(s: LogStateView, object_key: Seq<char>, batch: BatchDraftView)
    requires
        is_orderly(s),
        log_append::batch_stored(s, object_key, batch) is Ok,
    ensures
        ({
            let after = log_append::batch_stored(s, object_key, batch)->Ok_0.0;
            &&& is_orderly(after)
            &&& epochs_grow(s, after)
            &&& after.transactions == s.transactions
            &&& after.offsets == s.offsets
        }),
{
    let after = log_append::batch_stored(s, object_key, batch)->Ok_0.0;
    later_states_are_orderly(s, after);
}

/// A log that loses records leaves producers in order: only what the log remembers of them changes.
pub proof fn lost_records_keep_order(s: LogStateView, p: PartitionKeyView, spans: Seq<StoredSpanView>)
    requires
        is_orderly(s),
    ensures
        is_orderly(LogStateView { producers: crate::log_objects::reconciled(s.producers, p, spans), ..s }),
        epochs_grow(s, LogStateView { producers: crate::log_objects::reconciled(s.producers, p, spans), ..s }),
{
    later_states_are_orderly(s, LogStateView { producers: crate::log_objects::reconciled(s.producers, p, spans), ..s });
}

/// What holds once the transactional ids of some entries are given up.
proof fn given_up_ids_are_gone(s: LogStateView, entries: Seq<((i64, i64), Seq<char>)>, now_ms: i64)
    requires
        is_orderly(s),
        forall|i: int|
            #![trigger entries[i]]
            0 <= i < entries.len() ==> s.transactional_producers.contains_key(entries[i].1)
                && s.transactional_producers[entries[i].1] == entries[i].0.1,
    ensures
        ({
            let after = producer_expiry::given_up(s, entries, now_ms);
            &&& is_orderly(after)
            &&& after == (LogStateView { producers: after.producers, transactional_producers: after.transactional_producers, ..s })
            &&& after.producers.dom() == s.producers.dom()
            &&& forall|id: i64| #[trigger]
                s.producers.contains_key(id) ==> {
                    &&& after.producers[id].epoch == s.producers[id].epoch
                    &&& after.producers[id].transactional_id is None || after.producers[id].transactional_id == s.producers[id].transactional_id
                }
            &&& forall|name: Seq<char>| #[trigger]
                after.transactional_producers.contains_key(name) ==> s.transactional_producers.contains_key(name)
                    && after.transactional_producers[name]
                    == s.transactional_producers[name]
            &&& forall|name: Seq<char>| #[trigger]
                s.transactional_producers.contains_key(name) && (forall|i: int| 0 <= i < entries.len() ==> (#[trigger] entries[i]).1 != name)
                    ==> after.transactional_producers.contains_key(name)
        }),
    decreases entries.len(),
{
    let after = producer_expiry::given_up(s, entries, now_ms);
    if entries.len() > 0 {
        let fewer = entries.drop_last();
        assert forall|i: int| #![trigger fewer[i]] 0 <= i < fewer.len() implies s.transactional_producers.contains_key(fewer[i].1)
            && s.transactional_producers[fewer[i].1] == fewer[i].0.1 by {
            assert(fewer[i] == entries[i]);
        }
        given_up_ids_are_gone(s, fewer, now_ms);
        let before = producer_expiry::given_up(s, fewer, now_ms);
        let last = entries[entries.len() - 1];
        let gone = last.0.1;
        assert(s.transactional_producers.contains_key(last.1));
        assert(s.producers.contains_key(gone));
        assert(before.producers.contains_key(gone));
        assert(after.producers.dom() =~= s.producers.dom());
        assert forall|id: i64| #[trigger] after.producers.contains_key(id) implies producer_is_orderly(after, id) by {
            assert(before.producers.contains_key(id));
            assert(producer_is_orderly(before, id));
        }
        assert forall|name: Seq<char>| #[trigger] after.transactional_producers.contains_key(name) implies after.producers.contains_key(
            after.transactional_producers[name],
        ) && after.producers[after.transactional_producers[name]].transactional_id == Some(name) by {
            assert(before.transactional_producers.contains_key(name));
            assert(s.transactional_producers.contains_key(name));
            assert(before.transactional_producers[name] != gone);
        }
        assert forall|name: Seq<char>| #[trigger]
            s.transactional_producers.contains_key(name) && (forall|i: int| 0 <= i < entries.len()
                ==> (#[trigger] entries[i]).1 != name) implies after.transactional_producers.contains_key(
            name,
        ) by {
            assert forall|i: int| 0 <= i < fewer.len() implies (#[trigger] fewer[i]).1 != name by {
                assert(entries[i].1 != name);
            }
            assert(entries[entries.len() - 1].1 != name);
        }
    }
}

/// Transactional ids that are given up leave everything in order. One whose transaction is open is
/// never given up.
pub proof fn open_transactions_keep_their_id(s: LogStateView, now_ms: i64, expiration_ms: i64, limit: nat, name: Seq<char>)
    requires
        is_orderly(s),
        s.transactional_producers.dom().finite(),
        s.transactional_producers.contains_key(name),
        producer_expiry::is_busy(s.transactions, s.transactional_producers[name]),
    ensures
        ({
            let after = producer_expiry::ids_expired(s, now_ms, expiration_ms, limit).0;
            &&& is_orderly(after)
            &&& leaves_logs_alone(s, after)
            &&& epochs_grow(s, after)
            &&& after.transactions == s.transactions
            &&& after.offsets == s.offsets
            &&& after.transactional_producers.contains_key(name)
            &&& after.transactional_producers[name] == s.transactional_producers[name]
        }),
{
    if expiration_ms > 0 {
        let cutoff_ms = crate::numbers::clamped_i64(now_ms - expiration_ms) as i64;
        let idle = producer_expiry::idle_ids(s, cutoff_ms);
        let entry_of = |id: Seq<char>|
            ((s.producers[s.transactional_producers[id]].last_transaction_update_ms, s.transactional_producers[id]), id);
        s.transactional_producers.dom().lemma_map_finite(entry_of);
        assert(idle.subset_of(s.transactional_producers.dom().map(entry_of))) by {
            assert forall|entry: ((i64, i64), Seq<char>)| idle.contains(entry)
                implies s.transactional_producers.dom().map(entry_of).contains(entry) by {
                assert(s.transactional_producers.dom().contains(entry.1));
                assert(entry_of(entry.1) == entry);
            }
        }
        vstd::set_lib::lemma_set_subset_finite(s.transactional_producers.dom().map(entry_of), idle);
        sorted_map::finite_sets_are_listed::<((i64, i64), String)>(idle);
        let all = sorted_map::sorted_keys::<((i64, i64), String)>(idle);
        let entries = producer_expiry::first_of(all, limit);
        assert forall|i: int| #![trigger entries[i]] 0 <= i < entries.len() implies idle.contains(entries[i]) by {
            assert(entries[i] == all[i]);
            assert(all.to_set().contains(all[i]));
        }
        given_up_ids_are_gone(s, entries, now_ms);
        assert forall|i: int| 0 <= i < entries.len() implies (#[trigger] entries[i]).1 != name by {
            assert(idle.contains(entries[i]));
        }
    }
}

} // verus!
