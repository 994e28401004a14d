//! What sessions of producers and their transactions are good for, and what is told of them.

use crate::error::ControlErrorView;
use crate::log_types::{
    LogStateView, ProducerInitializationView, ProducerSession, StoredSpanView, TransactionDescriptionView, TransactionFilterView,
    TransactionState, TransactionStatus,
};
use crate::numbers;
use crate::observability;
use crate::offsets;
use crate::partition::{PartitionKey, PartitionKeyView};
use crate::patterns;
use crate::producers;
use crate::retention_laws;
use crate::sorted_map;
use crate::time;
use crate::transaction_ends;
use crate::transaction_queries;
use crate::transactions;
use vstd::prelude::*;

verus! {

/// What a producer gets that asks for a session under a transactional id. A first one is new, with the
/// timeout asked for. A later one is of the next epoch of the same producer, as far as there is one, and
/// starts afresh: no sequence number is remembered. The transaction that was open is aborted, unless it
/// is to be kept: then it is told, and goes on. A timeout must be positive, and who names its present
/// session must name it right.
pub proof fn sessions_start_afresh(
    s: LogStateView,
    id: Seq<char>,
    timeout_ms: i32,
    current: Option<ProducerSession>,
    enable_2_pc: bool,
    keep: bool,
    now_ms: i64,
)
    requires
        producers::indexed(s),
        s.transactional_producers.contains_key(id) ==> s.producers[s.transactional_producers[id]].transactional_id == Some(id),
        0 <= s.next_producer_id < i64::MAX,
    ensures
        ({
            let (after, answer) = producers::initialized(s, Some(id), timeout_ms, current, enable_2_pc, keep, now_ms);
            let known = s.transactional_producers.contains_key(id);
            let old_id = s.transactional_producers[id];
            let old = s.producers[old_id];
            let open = old.current_transaction_id;
            &&& timeout_ms <= 0 ==> answer == Err::<ProducerInitializationView, ControlErrorView>(
                ControlErrorView::InvalidTransactionTimeout(timeout_ms),
            )
            &&& timeout_ms > 0 && !known ==> (answer is Ok <==> current is None)
            &&& timeout_ms > 0 && known && current is Some && current->0 != (ProducerSession { producer_id: old_id, producer_epoch: old.epoch })
                ==> answer is Err
            &&& timeout_ms > 0 && known && !keep && (current is None || current->0 == (ProducerSession {
                producer_id: old_id,
                producer_epoch: old.epoch,
            })) ==> answer is Ok
            &&& answer is Ok ==> {
                let session = answer->Ok_0.producer;
                let stored = after.producers[session.producer_id];
                &&& after.transactional_producers.contains_key(id) && after.transactional_producers[id] == session.producer_id
                &&& stored.epoch == session.producer_epoch
                &&& stored.transactional_id == Some(id)
                &&& stored.transaction_timeout_ms == timeout_ms
                &&& stored.two_phase_commit == enable_2_pc
                &&& forall|p: PartitionKeyView| !(#[trigger] stored.sequences.contains_key(p))
                &&& if known && old.epoch < i16::MAX {
                    session.producer_id == old_id && session.producer_epoch == old.epoch + 1
                } else {
                    session.producer_id == s.next_producer_id + 1 && session.producer_epoch == 0 && after.next_producer_id
                        == session.producer_id
                }
                &&& known && !keep && open is Some && s.transactions.contains_key(open->0) ==> after.transactions[open->0].status
                    == TransactionStatus::Aborted
                &&& !keep ==> stored.current_transaction_id is None && answer->Ok_0.ongoing_transaction is None
                &&& known && keep ==> stored.current_transaction_id == open
                &&& known && keep && open is Some ==> {
                    &&& s.transactions.contains_key(open->0) && s.transactions[open->0].status == TransactionStatus::Ongoing
                    &&& after.transactions[open->0].status == TransactionStatus::Ongoing
                    &&& answer->Ok_0.ongoing_transaction == Some(s.transactions[open->0].producer)
                    &&& enable_2_pc ==> after.transactions[open->0].expires_at is None
                }
                &&& forall|t: u128| #[trigger]
                    s.transactions.contains_key(t) && (!known || open != Some(t)) ==> after.transactions.contains_key(t)
                        && after.transactions[t] == s.transactions[t]
            }
        }),
{
}

/// What a producer without a transactional id gets: a new id, or the next epoch of its own; never a
/// transaction.
pub proof fn plain_producers_get_plain_sessions(
    s: LogStateView,
    timeout_ms: i32,
    current: Option<ProducerSession>,
    enable_2_pc: bool,
    keep: bool,
    now_ms: i64,
)
    requires
        0 <= s.next_producer_id < i64::MAX,
    ensures
        ({
            let (after, answer) = producers::initialized(s, None, timeout_ms, current, enable_2_pc, keep, now_ms);
            &&& enable_2_pc || keep ==> answer is Err
            &&& !enable_2_pc && !keep ==> (answer is Ok <==> current is None || (s.producers.contains_key(current->0.producer_id)
                && s.producers[current->0.producer_id].transactional_id is None && s.producers[current->0.producer_id].epoch
                == current->0.producer_epoch))
            &&& answer is Ok ==> {
                let session = answer->Ok_0.producer;
                let stored = after.producers[session.producer_id];
                &&& after.transactions == s.transactions && after.transactional_producers == s.transactional_producers
                &&& stored.transactional_id is None
                &&& stored.epoch == session.producer_epoch
                &&& forall|p: PartitionKeyView| !(#[trigger] stored.sequences.contains_key(p))
                &&& answer->Ok_0.ongoing_transaction is None
                &&& if current is Some && current->0.producer_epoch < i16::MAX {
                    session == (ProducerSession {
                        producer_id: current->0.producer_id,
                        producer_epoch: (current->0.producer_epoch + 1) as i16,
                    })
                } else {
                    session == (ProducerSession { producer_id: (s.next_producer_id + 1) as i64, producer_epoch: 0 })
                }
            }
        }),
{
}

/// Whether a session is the present one of a transactional id.
pub open spec fn is_present(s: LogStateView, id: Seq<char>, session: ProducerSession) -> bool {
    &&& s.transactional_producers.contains_key(id)
    &&& s.transactional_producers[id] == session.producer_id
    &&& s.producers.contains_key(session.producer_id)
    &&& s.producers[session.producer_id].epoch == session.producer_epoch
}

proof fn missing_partitions_are_found(s: LogStateView, list: Seq<PartitionKeyView>)
    ensures
        transactions::first_missing(s, list) is None <==> forall|i: int| 0 <= i < list.len() ==> s.partitions.contains_key(#[trigger] list[i]),
    decreases list.len(),
{
    if list.len() > 0 {
        let rest = list.drop_first();
        missing_partitions_are_found(s, rest);
        if transactions::first_missing(s, list) is None {
            assert forall|i: int| 0 <= i < list.len() implies s.partitions.contains_key(#[trigger] list[i]) by {
                if i > 0 {
                    assert(rest[i - 1] == list[i]);
                }
            }
        }
        if forall|i: int| 0 <= i < list.len() ==> s.partitions.contains_key(#[trigger] list[i]) {
            assert forall|i: int| 0 <= i < rest.len() implies s.partitions.contains_key(#[trigger] rest[i]) by {
                assert(list[i + 1] == rest[i]);
            }
            assert(s.partitions.contains_key(list[0]));
        }
    }
}

/// What it takes to add partitions to a transaction, and what comes of it. All of them have to exist,
/// and the session has to be the present one. The producer's open transaction takes them beside what it
/// has; where none is open, a new one is, which runs out of time after the producer's timeout, unless
/// the producer commits in two phases. Who only asks changes nothing.
pub proof fn added_partitions_are_in_the_transaction(
    s: LogStateView,
    id: Seq<char>,
    producer: ProducerSession,
    list: Seq<PartitionKeyView>,
    verify_only: bool,
    fresh: u128,
    now: int,
    p: PartitionKeyView,
)
    ensures
        ({
            let (after, answer) = transactions::partitions_added(s, id, producer, list, verify_only, fresh, now);
            let exist = forall|i: int| 0 <= i < list.len() ==> s.partitions.contains_key(#[trigger] list[i]);
            let stored = s.producers[producer.producer_id];
            let open = stored.current_transaction_id is Some && s.transactions.contains_key(stored.current_transaction_id->0)
                && s.transactions[stored.current_transaction_id->0].status == TransactionStatus::Ongoing;
            &&& answer is Ok ==> exist && is_present(s, id, producer)
            &&& verify_only ==> after == s && (answer is Ok <==> exist && is_present(s, id, producer))
            &&& exist && is_present(s, id, producer) && stored.current_transaction_id is None ==> answer is Ok
            &&& exist && is_present(s, id, producer) && open && s.transactions[stored.current_transaction_id->0].producer == producer
                ==> answer is Ok
            &&& answer is Ok && !verify_only ==> {
                let mine = after.producers[producer.producer_id].current_transaction_id;
                let transaction = after.transactions[mine->0];
                &&& mine == if open {
                    stored.current_transaction_id
                } else {
                    Some(fresh)
                }
                &&& after.transactions.contains_key(mine->0)
                &&& transaction.status == TransactionStatus::Ongoing
                &&& transaction.producer == producer
                &&& transaction.partitions.contains_key(p) <==> list.contains(p) || (open && s.transactions[mine->0].partitions.contains_key(p))
                &&& open ==> transaction.expires_at == s.transactions[mine->0].expires_at && transaction.started_at
                    == s.transactions[mine->0].started_at && transaction.offsets == s.transactions[mine->0].offsets
                &&& !open ==> transaction.transactional_id == id && transaction.started_at == now && transaction.expires_at
                    == if stored.two_phase_commit {
                    None
                } else {
                    Some(time::instant_after(now, stored.transaction_timeout_ms as int))
                }
                &&& forall|t: u128| #[trigger]
                    s.transactions.contains_key(t) && t != mine->0 ==> after.transactions.contains_key(t) && after.transactions[t]
                        == s.transactions[t]
            }
        }),
{
    missing_partitions_are_found(s, list);
}

/// A group that is added to a transaction is part of it, and may store offsets in it; the offsets are
/// held in the transaction as they were sent, and no other transaction takes note.
pub proof fn added_groups_are_in_the_transaction(
    s: LogStateView,
    id: Seq<char>,
    producer: ProducerSession,
    group_id: Seq<char>,
    fresh: u128,
    now: int,
    other: Seq<char>,
)
    ensures
        ({
            let (after, answer) = transactions::group_added(s, id, producer, group_id, fresh, now);
            &&& answer is Ok ==> group_id.len() > 0 && is_present(s, id, producer)
            &&& group_id.len() > 0 && is_present(s, id, producer) && s.producers[producer.producer_id].current_transaction_id is None
                ==> answer is Ok
            &&& answer is Ok ==> {
                let mine = after.producers[producer.producer_id].current_transaction_id;
                let transaction = after.transactions[mine->0];
                &&& mine is Some && after.transactions.contains_key(mine->0)
                &&& transaction.status == TransactionStatus::Ongoing
                &&& transaction.producer == producer
                &&& transaction.groups.contains_key(group_id)
                &&& other != group_id && mine != Some(fresh) ==> transaction.groups.contains_key(other)
                    == s.transactions[mine->0].groups.contains_key(other)
                &&& forall|t: u128| #[trigger]
                    s.transactions.contains_key(t) && t != mine->0 ==> after.transactions.contains_key(t) && after.transactions[t]
                        == s.transactions[t]
            }
        }),
{
}

/// Only transactions that are overdue are ended by a sweep: one that is open and whose time has come. It
/// is aborted, and its producer is free for the next; every other transaction and every other producer
/// stays as it is.
pub proof fn sweeps_end_what_is_overdue(s: LogStateView, now: int, t: u128, producer_id: i64)
    ensures
        ({
            let after = transaction_queries::timed_out(s, now);
            let late = |t: u128|
                s.transactions.contains_key(t) && s.transactions[t].status == TransactionStatus::Ongoing && s.transactions[t].expires_at is Some
                    && s.transactions[t].expires_at->0 <= now;
            &&& s.transactions.contains_key(t) ==> after.transactions.contains_key(t) && after.transactions[t].offsets == s.transactions[t].offsets
                && (if late(t) {
                after.transactions[t].status == TransactionStatus::Aborted
            } else {
                after.transactions[t] == s.transactions[t]
            })
            &&& s.producers.contains_key(producer_id) ==> {
                let current = s.producers[producer_id].current_transaction_id;
                &&& after.producers.contains_key(producer_id)
                &&& after.producers[producer_id].epoch == s.producers[producer_id].epoch
                &&& if current is Some && late(current->0) {
                    after.producers[producer_id].current_transaction_id is None
                } else {
                    after.producers[producer_id] == s.producers[producer_id]
                }
            }
            &&& transaction_queries::overdue(s, now).contains_key(t) <==> late(t)
        }),
{
}

/// What a listing of transactions leaves out: one in another state than those asked for, of another
/// producer, one that is not open for so long, or one whose id the pattern does not match as a whole.
/// What a filter does not speak of leaves nothing out.
pub open spec fn leaves_out(filter: TransactionFilterView, now_ms: i64, told: TransactionDescriptionView) -> bool {
    ||| filter.state_filters.len() > 0 && !filter.state_filters.contains(told.state.name())
    ||| filter.producer_id_filters.len() > 0 && !filter.producer_id_filters.contains(told.producer.producer_id)
    ||| filter.min_duration_ms is Some && (told.state != TransactionState::Ongoing || told.start_time_ms < 0 || numbers::clamped_i64(
        now_ms - told.start_time_ms,
    ) < filter.min_duration_ms->0)
    ||| filter.transactional_id_pattern is Some && filter.transactional_id_pattern->0.len() > 0 && !patterns::regex_matches(
        patterns::anchored(filter.transactional_id_pattern->0),
        told.transactional_id,
    )
}

/// A listing of transactions gives what its filter does not leave out, all of it and nothing else.
pub proof fn listings_follow_their_filter(
    descriptions: Seq<TransactionDescriptionView>,
    filter: TransactionFilterView,
    now_ms: i64,
    told: TransactionDescriptionView,
)
    requires
        descriptions.len() <= usize::MAX,
        transaction_queries::filtered_descriptions(descriptions, filter, now_ms) is Ok,
    ensures
        transaction_queries::filtered_descriptions(descriptions, filter, now_ms)->Ok_0.contains(told) <==> descriptions.contains(told)
            && !leaves_out(filter, now_ms, told),
{
    let matched = transaction_queries::matched_names(descriptions, filter);
    let places = transaction_queries::asked_places(descriptions, filter, now_ms, matched);
    let listed = Seq::new(descriptions.len(), |i: int| (descriptions[i].transactional_id, i as usize));
    assert forall|place: (Seq<char>, usize)| #[trigger] places.contains(place) implies listed.to_set().contains(place) by {
        assert(listed[place.1 as int] == place);
    }
    vstd::seq_lib::seq_to_set_is_finite(listed);
    assert(places.subset_of(listed.to_set()));
    vstd::set_lib::lemma_set_subset_finite(listed.to_set(), places);
    sorted_map::finite_sets_are_listed::<(String, usize)>(places);
    let order = sorted_map::sorted_keys::<(String, usize)>(places);
    let got = transaction_queries::selected(descriptions, filter, now_ms, matched);
    if got.contains(told) {
        let k = choose|k: int| 0 <= k < got.len() && got[k] == told;
        assert(order.to_set().contains(order[k]));
        assert(descriptions[order[k].1 as int] == told);
    }
    if descriptions.contains(told) && !leaves_out(filter, now_ms, told) {
        let i = choose|i: int| 0 <= i < descriptions.len() && descriptions[i] == told;
        let place = (told.transactional_id, i as usize);
        assert(places.contains(place));
        assert(order.to_set().contains(place));
        let k = choose|k: int| 0 <= k < order.len() && order[k] == place;
        assert(got[k] == told);
    }
}

/// What is told of a transactional id: its present session, and the state of the transaction that was
/// started last, with its partitions while it is open.
pub proof fn descriptions_tell_the_latest(s: LogStateView, id: Seq<char>)
    requires
        transaction_queries::described(s, id) is Some,
    ensures
        ({
            let told = transaction_queries::described(s, id)->0;
            &&& told.transactional_id == id
            &&& is_present(s, id, told.producer)
            &&& told.timeout_ms == s.producers[told.producer.producer_id].transaction_timeout_ms
            &&& told.state == TransactionState::Empty ==> told.start_time_ms == -1 && told.partitions.len() == 0
            &&& told.state != TransactionState::Empty ==> exists|t: u128| #[trigger]
                s.transactions.contains_key(t) && s.transactions[t].transactional_id == id && told.start_time_ms == time::whole_millis(
                    s.transactions[t].started_at,
                ) && (told.state == TransactionState::Ongoing <==> s.transactions[t].status == TransactionStatus::Ongoing) && (told.state
                    == TransactionState::CompleteCommit <==> s.transactions[t].status == TransactionStatus::Committed) && (told.state
                    == TransactionState::CompleteAbort <==> s.transactions[t].status == TransactionStatus::Aborted) && (forall|u: u128| #[trigger]
                    s.transactions.contains_key(u) && s.transactions[u].transactional_id == id ==> s.transactions[u].started_at
                        <= s.transactions[t].started_at) && (told.state != TransactionState::Ongoing ==> told.partitions.len() == 0)
        }),
{
    let test = transaction_queries::of_transactional_id(id);
    let found = transaction_ends::newest(s.transactions, test, false);
    if found is Some {
        let t = found->0;
        assert(transaction_ends::is_newest(s.transactions, test, false, t));
        assert(s.transactions.contains_key(t) && s.transactions[t].transactional_id == id);
        assert forall|u: u128| #[trigger] s.transactions.contains_key(u) && s.transactions[u].transactional_id == id
            implies s.transactions[u].started_at <= s.transactions[t].started_at by {
            assert(test(s.transactions[u]));
        }
    }
}

/// How often a state occurs among some descriptions.
pub open spec fn times(descriptions: Seq<TransactionDescriptionView>, state: TransactionState) -> int
    decreases descriptions.len(),
{
    if descriptions.len() == 0 {
        0
    } else {
        times(descriptions.drop_last(), state) + if descriptions.last().state == state {
            1int
        } else {
            0
        }
    }
}

/// Transactions are counted by their state.
pub proof fn states_are_counted(descriptions: Seq<TransactionDescriptionView>)
    requires
        descriptions.len() <= i64::MAX,
    ensures
        ({
            let counts = transaction_queries::counts_of(descriptions);
            &&& counts.empty == times(descriptions, TransactionState::Empty)
            &&& counts.ongoing == times(descriptions, TransactionState::Ongoing)
            &&& counts.complete_commit == times(descriptions, TransactionState::CompleteCommit)
            &&& counts.complete_abort == times(descriptions, TransactionState::CompleteAbort)
            &&& 0 <= counts.empty <= descriptions.len()
            &&& 0 <= counts.ongoing <= descriptions.len()
            &&& 0 <= counts.complete_commit <= descriptions.len()
            &&& 0 <= counts.complete_abort <= descriptions.len()
        }),
    decreases descriptions.len(),
{
    if descriptions.len() > 0 {
        states_are_counted(descriptions.drop_last());
    }
}

proof fn the_first_since_is_found(spans: Seq<StoredSpanView>, timestamp_ms: i64)
    ensures
        match observability::first_since(spans, timestamp_ms) {
            Some(offset) => exists|i: int|
                0 <= i < spans.len() && (#[trigger] spans[i]).base_offset == offset && spans[i].timestamp_ms >= timestamp_ms && forall|j: int|
                    0 <= j < i ==> (#[trigger] spans[j]).timestamp_ms < timestamp_ms,
            None => forall|j: int| 0 <= j < spans.len() ==> (#[trigger] spans[j]).timestamp_ms < timestamp_ms,
        },
    decreases spans.len(),
{
    if spans.len() > 0 {
        let rest = spans.drop_first();
        if spans[0].timestamp_ms >= timestamp_ms {
            assert(spans[0].base_offset == observability::first_since(spans, timestamp_ms)->0);
        } else {
            the_first_since_is_found(rest, timestamp_ms);
            match observability::first_since(rest, timestamp_ms) {
                Some(offset) => {
                    let i = choose|i: int|
                        0 <= i < rest.len() && (#[trigger] rest[i]).base_offset == offset && rest[i].timestamp_ms >= timestamp_ms && forall|j: int|
                            0 <= j < i ==> (#[trigger] rest[j]).timestamp_ms < timestamp_ms;
                    assert(spans[i + 1].base_offset == offset);
                    assert forall|j: int| 0 <= j < i + 1 implies (#[trigger] spans[j]).timestamp_ms < timestamp_ms by {
                        if j > 0 {
                            assert(rest[j - 1] == spans[j]);
                        }
                    }
                },
                None => {
                    assert forall|j: int| 0 <= j < spans.len() implies (#[trigger] spans[j]).timestamp_ms < timestamp_ms by {
                        if j > 0 {
                            assert(rest[j - 1] == spans[j]);
                        }
                    }
                },
            }
        }
    }
}

/// Which offset is told for a time: the first of the log for the earliest, the end of the log for the
/// latest; and for any other the first offset of the first span that is no older, or the end of the log
/// where every span is.
pub proof fn times_are_looked_up(s: LogStateView, p: PartitionKeyView, timestamp_ms: i64)
    ensures
        ({
            let log = s.partitions[p];
            let told = observability::offset_at(log, timestamp_ms);
            &&& timestamp_ms == -2 ==> told == log.log_start_offset
            &&& timestamp_ms == -1 ==> told == log.next_offset
            &&& timestamp_ms != -1 && timestamp_ms != -2 ==> {
                ||| told == log.next_offset && forall|j: int| 0 <= j < log.spans.len() ==> (#[trigger] log.spans[j]).timestamp_ms < timestamp_ms
                ||| exists|i: int|
                    0 <= i < log.spans.len() && (#[trigger] log.spans[i]).base_offset == told && log.spans[i].timestamp_ms >= timestamp_ms
                        && forall|j: int| 0 <= j < i ==> (#[trigger] log.spans[j]).timestamp_ms < timestamp_ms
            }
        }),
{
    the_first_since_is_found(s.partitions[p].spans, timestamp_ms);
}

/// How far groups are behind: of each offset whose partition exists, how many records the log has behind
/// it, none where the offset is ahead. So many are told as were asked for, in the order of groups.
pub proof fn lags_tell_what_is_behind(s: LogStateView, limit: nat, i: int)
    requires
        s.offsets.dom().finite(),
        offsets::lags_fit(s),
        0 <= i < offsets::lags(s, limit).len(),
    ensures
        ({
            let lag = offsets::lags(s, limit)[i];
            let key = (lag.group_id, lag.partition);
            &&& offsets::lags(s, limit).len() <= limit
            &&& s.offsets.contains_key(key) && s.partitions.contains_key(lag.partition)
            &&& lag.committed_offset == s.offsets[key].offset
            &&& lag.high_watermark == s.partitions[lag.partition].next_offset
            &&& lag.lag >= 0
            &&& lag.committed_offset <= lag.high_watermark ==> lag.committed_offset + lag.lag == lag.high_watermark
            &&& lag.committed_offset > lag.high_watermark ==> lag.lag == 0
        }),
{
    let placed = offsets::placed_offsets(s);
    assert(placed.dom().subset_of(s.offsets.dom()));
    vstd::set_lib::lemma_len_subset(placed.dom(), s.offsets.dom());
    let keys = sorted_map::sorted_keys::<(String, PartitionKey)>(placed.dom());
    sorted_map::finite_sets_are_listed::<(String, PartitionKey)>(placed.dom());
    assert(keys.to_set().contains(keys[i]));
}

/// Every group that is behind is told of, where the limit allows.
pub proof fn no_lag_is_left_out(s: LogStateView, limit: nat, key: (Seq<char>, PartitionKeyView)) -> (i: int)
    requires
        s.offsets.dom().finite(),
        s.offsets.dom().len() <= limit,
        s.offsets.contains_key(key),
        s.partitions.contains_key(key.1),
    ensures
        0 <= i < offsets::lags(s, limit).len(),
        offsets::lags(s, limit)[i].group_id == key.0,
        offsets::lags(s, limit)[i].partition == key.1,
{
    let placed = offsets::placed_offsets(s);
    assert(placed.dom().subset_of(s.offsets.dom()));
    vstd::set_lib::lemma_len_subset(placed.dom(), s.offsets.dom());
    let keys = sorted_map::sorted_keys::<(String, PartitionKey)>(placed.dom());
    sorted_map::finite_sets_are_listed::<(String, PartitionKey)>(placed.dom());
    sorted_map::strictly_sorted_unique::<(String, PartitionKey)>(keys);
    assert(placed.contains_key(key));
    assert(keys.to_set().contains(key));
    choose|i: int| 0 <= i < keys.len() && keys[i] == key
}

/// How large logs are told to be: the bytes of their spans, as far as they can be counted, beside the
/// limit of the topic.
pub proof fn sizes_are_told(s: LogStateView, limit: nat, i: int)
    requires
        s.partitions.dom().finite(),
        0 <= i < observability::retention_sizes(s, limit).len(),
    ensures
        ({
            let told = observability::retention_sizes(s, limit)[i];
            &&& observability::retention_sizes(s, limit).len() <= limit
            &&& s.partitions.contains_key(told.partition) && s.topic_configs.contains_key(told.partition.topic)
            &&& told.size_bytes == numbers::clamped_i64(retention_laws::volume(s.partitions[told.partition].spans))
            &&& told.retention_bytes == s.topic_configs[told.partition.topic].retention_bytes
        }),
{
    let some = observability::configured(s);
    assert(some.dom().subset_of(s.partitions.dom()));
    vstd::set_lib::lemma_len_subset(some.dom(), s.partitions.dom());
    let keys = sorted_map::sorted_keys::<PartitionKey>(some.dom());
    sorted_map::finite_sets_are_listed::<PartitionKey>(some.dom());
    assert(keys.to_set().contains(keys[i]));
    retention_laws::log_bytes_add_up(s.partitions[keys[i]].spans);
}

/// How full a log is, in hundredths of what it may hold: the share rounded down, and none where it holds
/// nothing or has no limit.
pub proof fn shares_are_rounded_down(size: i64, allowed: i64)
    ensures
        size <= 0 || allowed <= 0 ==> observability::used_percent(size as int, allowed as int) == 0,
        size > 0 && allowed > 0 && observability::used_percent(size as int, allowed as int) < i64::MAX ==> observability::used_percent(
            size as int,
            allowed as int,
        ) * allowed <= size * 100 < (observability::used_percent(size as int, allowed as int) + 1) * allowed,
{
    if size > 0 && allowed > 0 {
        let q = size as int * 100 / allowed as int;
        vstd::arithmetic::div_mod::lemma_fundamental_div_mod(size as int * 100, allowed as int);
        assert(q >= 0) by {
            vstd::arithmetic::div_mod::lemma_div_pos_is_pos(size as int * 100, allowed as int);
        }
        assert((q + 1) * allowed == q * allowed + allowed) by (nonlinear_arith);
        assert(allowed as int * q == q * allowed as int) by (nonlinear_arith);
    }
}

/// Who is told to write to a partition: each producer of which the partition remembers something, with
/// the epoch, the number and the time of its last batch there, and the first offset that it wrote there
/// in the transaction that it has open.
pub proof fn writers_are_told(s: LogStateView, p: PartitionKeyView, id: i64)
    requires
        s.producers.dom().finite(),
        s.producers.contains_key(id),
    ensures
        ({
            let told = observability::active_producers(s, p);
            let spans = s.partitions[p].spans;
            let known = s.producers[id].sequences.contains_key(p);
            &&& known <==> exists|i: int| 0 <= i < told.len() && (#[trigger] told[i]).producer_id == id
            &&& forall|i: int|
                0 <= i < told.len() && (#[trigger] told[i]).producer_id == id ==> {
                    let current = s.producers[id].current_transaction_id;
                    let start = told[i].current_transaction_start_offset;
                    &&& told[i].producer_epoch == s.producers[id].sequences[p].epoch
                    &&& told[i].last_sequence == s.producers[id].sequences[p].last_sequence
                    &&& told[i].last_timestamp == s.producers[id].sequences[p].last_timestamp
                    &&& current is None || !s.transactions.contains_key(current->0) || s.transactions[current->0].status
                        != TransactionStatus::Ongoing ==> start == -1
                    &&& forall|k: int|
                        0 <= k < spans.len() && current is Some && s.transactions.contains_key(current->0) && s.transactions[current->0].status
                            == TransactionStatus::Ongoing && (#[trigger] spans[k]).transaction_id == current && spans[k].producer is Some
                            && spans[k].producer->0.producer_id == id ==> start <= spans[k].base_offset
                    &&& start != -1 ==> exists|k: int|
                        0 <= k < spans.len() && (#[trigger] spans[k]).transaction_id == current && spans[k].base_offset == start
                }
        }),
{
    let told = observability::active_producers(s, p);
    let known = observability::known_producers(s, p);
    assert(known.dom().subset_of(s.producers.dom()));
    vstd::set_lib::lemma_len_subset(known.dom(), s.producers.dom());
    let ids = sorted_map::sorted_keys::<i64>(known.dom());
    sorted_map::finite_sets_are_listed::<i64>(known.dom());
    if known.contains_key(id) {
        assert(ids.to_set().contains(id));
        let i = choose|i: int| 0 <= i < ids.len() && ids[i] == id;
        assert(told[i].producer_id == id);
    }
    assert forall|i: int| 0 <= i < told.len() implies known.contains_key((#[trigger] told[i]).producer_id) by {
        assert(ids.to_set().contains(ids[i]));
    }
    let current = s.producers[id].current_transaction_id;
    if current is Some {
        the_first_written_is_found(s.partitions[p].spans, current->0, id);
    }
}

proof fn the_first_written_is_found(spans: Seq<StoredSpanView>, transaction: u128, id: i64)
    ensures
        match observability::first_written_in(spans, transaction, id) {
            Some(start) => {
                &&& exists|k: int|
                    0 <= k < spans.len() && (#[trigger] spans[k]).transaction_id == Some(transaction) && spans[k].base_offset == start
                &&& forall|k: int|
                    0 <= k < spans.len() && (#[trigger] spans[k]).transaction_id == Some(transaction) && spans[k].producer is Some
                        && spans[k].producer->0.producer_id == id ==> start <= spans[k].base_offset
            },
            None => forall|k: int|
                0 <= k < spans.len() && (#[trigger] spans[k]).transaction_id == Some(transaction) && spans[k].producer is Some
                    ==> spans[k].producer->0.producer_id != id,
        },
    decreases spans.len(),
{
    if spans.len() > 0 {
        let rest = spans.drop_last();
        the_first_written_is_found(rest, transaction, id);
        let last = spans.len() - 1;
        assert(spans[last] == spans.last());
        assert forall|k: int| 0 <= k < rest.len() implies rest[k] == #[trigger] spans[k] by {}
        match observability::first_written_in(spans, transaction, id) {
            Some(start) => {
                if observability::written_in(spans.last(), transaction, id) && spans.last().base_offset == start {
                    assert(spans[last].base_offset == start);
                } else {
                    let k = choose|k: int| 0 <= k < rest.len() && (#[trigger] rest[k]).transaction_id == Some(transaction) && rest[k].base_offset == start;
                    assert(spans[k].base_offset == start);
                }
            },
            None => {},
        }
    }
}

} // verus!
