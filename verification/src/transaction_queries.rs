//! What is told of transactions, and what becomes of those that nobody ends.

use crate::error;
use crate::error::{ControlError, ControlErrorView};
use crate::log_types::{
    LogState, LogStateView, MemoryProducer, MemoryProducerView, MemoryTransaction, MemoryTransactionView,
    ProducerSession, TransactionDescription, TransactionDescriptionView, TransactionFilter, TransactionFilterView,
    TransactionState, TransactionStatus,
};
use crate::numbers;
use crate::numbers::saturating_difference;
use crate::observability;
use crate::observability::TransactionStateCounts;
use crate::partition::PartitionKey;
use crate::patterns;
use crate::patterns::{anchor, pattern_error, pattern_matches};
use crate::producers;
use crate::sorted_map;
use crate::sorted_map::{Duplicate, SortedMap};
use crate::text::{join_texts, lists_text, same_text};
use crate::time;
use crate::time::Timestamp;
use crate::transaction_ends;
use crate::transaction_ends::find_newest;
use vstd::prelude::*;

verus! {

impl TransactionState {
    /// The name under which a state is told.
    pub open spec fn name(self) -> Seq<char> {
        match self {
            TransactionState::Empty => "Empty"@,
            TransactionState::Ongoing => "Ongoing"@,
            TransactionState::CompleteCommit => "CompleteCommit"@,
            TransactionState::CompleteAbort => "CompleteAbort"@,
        }
    }

    pub fn kafka_name(self) -> (r: &'static str)
        ensures
            r@ == self.name(),
    {
        match self {
            TransactionState::Empty => "Empty",
            TransactionState::Ongoing => "Ongoing",
            TransactionState::CompleteCommit => "CompleteCommit",
            TransactionState::CompleteAbort => "CompleteAbort",
        }
    }
}

/// What is told of a transaction in a state.
pub open spec fn told(status: TransactionStatus) -> TransactionState {
    match status {
        TransactionStatus::Ongoing => TransactionState::Ongoing,
        TransactionStatus::Committed => TransactionState::CompleteCommit,
        TransactionStatus::Aborted => TransactionState::CompleteAbort,
    }
}

fn tell(status: TransactionStatus) -> (r: TransactionState)
    ensures
        r == told(status),
{
    match status {
        TransactionStatus::Ongoing => TransactionState::Ongoing,
        TransactionStatus::Committed => TransactionState::CompleteCommit,
        TransactionStatus::Aborted => TransactionState::CompleteAbort,
    }
}

/// The transactions of a transactional id.
pub open spec fn of_transactional_id(id: Seq<char>) -> spec_fn(MemoryTransactionView) -> bool {
    |transaction: MemoryTransactionView| transaction.transactional_id == id
}

/// What is told of a transactional id: its producer, and its latest transaction.
pub open spec fn described(s: LogStateView, id: Seq<char>) -> Option<TransactionDescriptionView> {
    if !s.transactional_producers.contains_key(id) || !s.producers.contains_key(s.transactional_producers[id]) {
        None
    } else {
        let producer_id = s.transactional_producers[id];
        let producer = s.producers[producer_id];
        let session = ProducerSession { producer_id, producer_epoch: producer.epoch };
        match transaction_ends::newest(s.transactions, of_transactional_id(id), false) {
            None => Some(
                TransactionDescriptionView {
                    transactional_id: id,
                    producer: session,
                    state: TransactionState::Empty,
                    timeout_ms: producer.transaction_timeout_ms,
                    start_time_ms: -1i64,
                    partitions: Seq::empty(),
                },
            ),
            Some(latest) => {
                let transaction = s.transactions[latest];
                Some(
                    TransactionDescriptionView {
                        transactional_id: id,
                        producer: session,
                        state: told(transaction.status),
                        timeout_ms: producer.transaction_timeout_ms,
                        start_time_ms: time::whole_millis(transaction.started_at) as i64,
                        partitions: if transaction.status == TransactionStatus::Ongoing {
                            sorted_map::sorted_keys::<PartitionKey>(transaction.partitions.dom())
                        } else {
                            Seq::empty()
                        },
                    },
                )
            },
        }
    }
}

fn describe_memory_transaction(state: &LogState, transactional_id: &str) -> (r: Option<TransactionDescription>)
    ensures
        r.deep_view() == described(state.deep_view(), transactional_id@),
{
    let producer_id: i64 = match state.transactional_producers.get(&transactional_id.to_owned()) {
        Some(id) => *id,
        None => return None,
    };
    let producer = match state.producers.get(&producer_id) {
        Some(producer) => producer,
        None => return None,
    };
    let ghost mine = of_transactional_id(transactional_id@);
    let test = |transaction: &MemoryTransaction| -> (b: bool)
        ensures b == mine(transaction.deep_view())
    {
        same_text(transaction.transactional_id.as_str(), transactional_id)
    };
    let mut state_told = TransactionState::Empty;
    let mut start_time_ms: i64 = -1;
    let mut partitions: Vec<PartitionKey> = Vec::new();
    assert(partitions.deep_view() =~= Seq::empty());
    if let Some(latest) = find_newest(&state.transactions, test, Ghost(mine), false) {
        let transaction = state.transactions.get(&latest).unwrap();
        if transaction.status == TransactionStatus::Ongoing {
            partitions = transaction.partitions.keys();
        }
        state_told = tell(transaction.status);
        start_time_ms = transaction.started_at.millis();
    }
    Some(
        TransactionDescription {
            transactional_id: transactional_id.to_owned(),
            producer: ProducerSession { producer_id, producer_epoch: producer.epoch },
            state: state_told,
            timeout_ms: producer.transaction_timeout_ms,
            start_time_ms,
            partitions,
        },
    )
}

/// The pattern that a listing applies to whole transactional ids, if any.
pub open spec fn asked_pattern(filter: TransactionFilterView) -> Option<Seq<char>> {
    match filter.transactional_id_pattern {
        None => None,
        Some(pattern) => if pattern.len() == 0 {
            None
        } else {
            Some(patterns::anchored(pattern))
        },
    }
}

/// Whether a transactional id is asked for, when `matched` says whether its name is.
pub open spec fn is_asked(filter: TransactionFilterView, now_ms: i64, description: TransactionDescriptionView, matched: bool) -> bool {
    &&& filter.state_filters.len() == 0 || filter.state_filters.contains(description.state.name())
    &&& filter.producer_id_filters.len() == 0 || filter.producer_id_filters.contains(description.producer.producer_id)
    &&& filter.min_duration_ms is Some ==> description.state == TransactionState::Ongoing && description.start_time_ms >= 0
        && numbers::clamped_i64(now_ms - description.start_time_ms) >= filter.min_duration_ms->0
    &&& matched
}

/// The places of the descriptions that are asked for, each with its transactional id.
pub open spec fn asked_places(
    descriptions: Seq<TransactionDescriptionView>,
    filter: TransactionFilterView,
    now_ms: i64,
    matched: Seq<bool>,
) -> Set<(Seq<char>, usize)> {
    Set::new(
        |place: (Seq<char>, usize)|
            place.1 < descriptions.len() && place.0 == descriptions[place.1 as int].transactional_id && is_asked(
                filter,
                now_ms,
                descriptions[place.1 as int],
                matched[place.1 as int],
            ),
    )
}

/// The descriptions that are asked for, in the order of their transactional ids.
pub open spec fn selected(
    descriptions: Seq<TransactionDescriptionView>,
    filter: TransactionFilterView,
    now_ms: i64,
    matched: Seq<bool>,
) -> Seq<TransactionDescriptionView> {
    let order = sorted_map::sorted_keys::<(String, usize)>(asked_places(descriptions, filter, now_ms, matched));
    Seq::new(order.len(), |i: int| descriptions[order[i].1 as int])
}

fn lists_number(numbers: &Vec<i64>, number: i64) -> (r: bool)
    ensures
        r == numbers.deep_view().contains(number),
{
    let ghost all = numbers.deep_view();
    let mut i: usize = 0;
    while i < numbers.len()
        invariant
            i <= numbers@.len(),
            all == numbers.deep_view(),
            forall|j: int| 0 <= j < i ==> #[trigger] all[j] != number,
        decreases numbers@.len() - i,
    {
        assert(all[i as int] == numbers@[i as int]);
        if numbers[i] == number {
            return true;
        }
        i = i + 1;
    }
    false
}

/// The descriptions that a listing asks for, when `matched` says which names it asks for.
pub fn select_transaction_descriptions(
    descriptions: &Vec<TransactionDescription>,
    filter: &TransactionFilter,
    now_ms: i64,
    matched: &Vec<bool>,
) -> (r: Vec<TransactionDescription>)
    requires
        matched@.len() == descriptions@.len(),
    ensures
        r.deep_view() == selected(descriptions.deep_view(), filter.deep_view(), now_ms, matched@),
{
    let ghost all = descriptions.deep_view();
    let ghost f = filter.deep_view();
    let ghost places = asked_places(all, f, now_ms, matched@);
    let mut order: SortedMap<(String, usize), ()> = SortedMap::new();
    let mut i: usize = 0;
    while i < descriptions.len()
        invariant
            i <= descriptions@.len(),
            matched@.len() == descriptions@.len(),
            all == descriptions.deep_view(),
            f == filter.deep_view(),
            places == asked_places(all, f, now_ms, matched@),
            forall|place: (Seq<char>, usize)| #[trigger] order.deep_view().contains_key(place) <==> places.contains(place) && place.1 < i,
        decreases descriptions@.len() - i,
    {
        let description = &descriptions[i];
        assert(all[i as int] == description.deep_view());
        let long_enough = match filter.min_duration_ms {
            None => true,
            Some(minimum) => description.state == TransactionState::Ongoing && description.start_time_ms >= 0
                && saturating_difference(now_ms, description.start_time_ms) >= minimum,
        };
        assert(f.state_filters.len() == filter.state_filters@.len());
        assert(f.producer_id_filters.len() == filter.producer_id_filters@.len());
        let asked = (filter.state_filters.len() == 0 || lists_text(&filter.state_filters, description.state.kafka_name()))
            && (filter.producer_id_filters.len() == 0 || lists_number(&filter.producer_id_filters, description.producer.producer_id))
            && long_enough && matched[i];
        if asked {
            order.insert((description.transactional_id.clone(), i), ());
        }
        i = i + 1;
    }
    assert(order.deep_view().dom() =~= places);
    let keys = order.keys();
    let ghost listed = keys.deep_view();
    let mut r: Vec<TransactionDescription> = Vec::new();
    let mut n: usize = 0;
    while n < keys.len()
        invariant
            n <= keys@.len(),
            r@.len() == n,
            all == descriptions.deep_view(),
            listed == keys.deep_view(),
            listed.to_set() == places,
            places == asked_places(all, f, now_ms, matched@),
            forall|j: int| 0 <= j < n ==> (#[trigger] r@[j]).deep_view() == all[listed[j].1 as int],
        decreases keys@.len() - n,
    {
        assert(listed[n as int] == keys@[n as int].deep_view());
        assert(listed.to_set().contains(listed[n as int]));
        let at: usize = keys[n].1;
        assert(all[at as int] == descriptions@[at as int].deep_view());
        r.push(descriptions[at].duplicate());
        n = n + 1;
    }
    assert(r.deep_view() =~= selected(all, f, now_ms, matched@));
    r
}

/// Whether the name of each description is asked for.
pub open spec fn matched_names(descriptions: Seq<TransactionDescriptionView>, filter: TransactionFilterView) -> Seq<bool> {
    Seq::new(
        descriptions.len(),
        |i: int|
            asked_pattern(filter) is None || patterns::regex_matches(asked_pattern(filter)->0, descriptions[i].transactional_id),
    )
}

/// The descriptions that a listing asks for, or why its pattern is refused.
pub open spec fn filtered_descriptions(descriptions: Seq<TransactionDescriptionView>, filter: TransactionFilterView, now_ms: i64) -> Result<
    Seq<TransactionDescriptionView>,
    ControlErrorView,
> {
    if asked_pattern(filter) is Some && patterns::regex_error(asked_pattern(filter)->0) is Some {
        Err(
            ControlErrorView::InvalidRegularExpression(
                "invalid transactional id pattern: "@ + patterns::regex_error(asked_pattern(filter)->0)->0,
            ),
        )
    } else {
        Ok(selected(descriptions, filter, now_ms, matched_names(descriptions, filter)))
    }
}

/// The descriptions that a listing asks for.
pub fn filter_transaction_descriptions(descriptions: Vec<TransactionDescription>, filter: &TransactionFilter, now_ms: i64) -> (r: Result<
    Vec<TransactionDescription>,
    ControlError,
>)
    ensures
        error::outcome(r) == filtered_descriptions(descriptions.deep_view(), filter.deep_view(), now_ms),
{
    let ghost all = descriptions.deep_view();
    let ghost f = filter.deep_view();
    let pattern: Option<String> = match &filter.transactional_id_pattern {
        Some(pattern) => if pattern.as_str().is_empty() {
            None
        } else {
            Some(anchor(pattern.as_str()))
        },
        None => None,
    };
    assert(pattern.deep_view() == asked_pattern(f));
    if let Some(pattern) = &pattern {
        if let Some(error) = pattern_error(pattern.as_str()) {
            return Err(
                ControlError::InvalidRegularExpression(join_texts("invalid transactional id pattern: ", error.as_str())),
            );
        }
    }
    let mut matched: Vec<bool> = Vec::new();
    let mut i: usize = 0;
    while i < descriptions.len()
        invariant
            i <= descriptions@.len(),
            matched@.len() == i,
            all == descriptions.deep_view(),
            pattern.deep_view() == asked_pattern(f),
            forall|j: int| 0 <= j < i ==> #[trigger] matched@[j] == matched_names(all, f)[j],
        decreases descriptions@.len() - i,
    {
        assert(all[i as int] == descriptions@[i as int].deep_view());
        let hit = match &pattern {
            Some(pattern) => pattern_matches(pattern.as_str(), descriptions[i].transactional_id.as_str()),
            None => true,
        };
        matched.push(hit);
        i = i + 1;
    }
    assert(matched@ =~= matched_names(all, f));
    Ok(select_transaction_descriptions(&descriptions, filter, now_ms, &matched))
}

/// What is told of every transactional id that names a producer, in their order.
pub open spec fn all_described(s: LogStateView, ids: Seq<Seq<char>>) -> Seq<TransactionDescriptionView>
    decreases ids.len(),
{
    if ids.len() == 0 {
        Seq::empty()
    } else {
        match described(s, ids.last()) {
            Some(description) => all_described(s, ids.drop_last()).push(description),
            None => all_described(s, ids.drop_last()),
        }
    }
}

/// The transactional ids of a store, in order.
pub open spec fn known_ids(s: LogStateView) -> Seq<Seq<char>> {
    sorted_map::sorted_keys::<String>(s.transactional_producers.dom())
}

/// How many of some descriptions are in each state.
pub open spec fn counts_of(descriptions: Seq<TransactionDescriptionView>) -> TransactionStateCounts
    decreases descriptions.len(),
{
    if descriptions.len() == 0 {
        TransactionStateCounts { empty: 0, ongoing: 0, complete_commit: 0, complete_abort: 0 }
    } else {
        observability::counted(counts_of(descriptions.drop_last()), descriptions.last().state)
    }
}

/// What is told of the ids of a list that are known, by id.
pub open spec fn descriptions_by_id(s: LogStateView, ids: Seq<Seq<char>>) -> Map<Seq<char>, TransactionDescriptionView> {
    Map::new(|id: Seq<char>| ids.contains(id) && described(s, id) is Some, |id: Seq<char>| described(s, id)->0)
}

impl LogState {
    /// Describes every transactional id.
    fn describe_all(&self) -> (r: Vec<TransactionDescription>)
        ensures
            r.deep_view() == all_described(self.deep_view(), known_ids(self.deep_view())),
    {
        let ghost s = self.deep_view();
        let ids = self.transactional_producers.keys();
        let ghost all = ids.deep_view();
        let mut r: Vec<TransactionDescription> = Vec::new();
        assert(r.deep_view() =~= Seq::empty());
        let mut i: usize = 0;
        assert(all.take(0) =~= Seq::empty());
        while i < ids.len()
            invariant
                i <= ids@.len(),
                s == self.deep_view(),
                all == ids.deep_view(),
                r.deep_view() == all_described(s, all.take(i as int)),
            decreases ids@.len() - i,
        {
            proof {
                assert(all[i as int] == ids@[i as int].deep_view());
                sorted_map::prefix_grows(all, i as int);
            }
            let ghost before = r.deep_view();
            if let Some(description) = describe_memory_transaction(self, ids[i].as_str()) {
                r.push(description);
                assert(r.deep_view() =~= before.push(description.deep_view()));
            }
            i = i + 1;
        }
        assert(all.take(i as int) =~= all);
        r
    }

    /// Describes transactional ids.
    pub fn describe_transactions(&self, transactional_ids: &[String]) -> (r: SortedMap<String, TransactionDescription>)
        ensures
            r.deep_view() == descriptions_by_id(self.deep_view(), sorted_map::models(transactional_ids@)),
    {
        let ghost s = self.deep_view();
        let ghost all = sorted_map::models(transactional_ids@);
        let mut r: SortedMap<String, TransactionDescription> = SortedMap::new();
        let mut i: usize = 0;
        while i < transactional_ids.len()
            invariant
                i <= transactional_ids@.len(),
                s == self.deep_view(),
                all == sorted_map::models(transactional_ids@),
                forall|id: Seq<char>| #[trigger] r.deep_view().contains_key(id) <==> all.take(i as int).to_set().contains(id)
                    && described(s, id) is Some,
                forall|id: Seq<char>| #[trigger] r.deep_view().contains_key(id) ==> r.deep_view()[id] == described(s, id)->0,
            decreases transactional_ids@.len() - i,
        {
            proof {
                assert(all[i as int] == transactional_ids@[i as int]@);
                sorted_map::prefix_grows(all, i as int);
            }
            if let Some(description) = describe_memory_transaction(self, transactional_ids[i].as_str()) {
                r.insert(transactional_ids[i].clone(), description);
            }
            i = i + 1;
        }
        assert(all.take(i as int) =~= all);
        assert(r.deep_view() =~= descriptions_by_id(s, all));
        r
    }

    /// Lists the transactional ids that are asked for.
    pub fn list_transactions(&self, filter: &TransactionFilter, now_ms: i64) -> (r: Result<Vec<TransactionDescription>, ControlError>)
        ensures
            error::outcome(r) == filtered_descriptions(
                all_described(self.deep_view(), known_ids(self.deep_view())),
                filter.deep_view(),
                now_ms,
            ),
    {
        let descriptions = self.describe_all();
        filter_transaction_descriptions(descriptions, filter, now_ms)
    }

    /// Counts transactional ids by state.
    pub fn transaction_state_counts(&self) -> (r: TransactionStateCounts)
        requires
            self.deep_view().transactional_producers.dom().len() < i64::MAX,
        ensures
            r == counts_of(all_described(self.deep_view(), known_ids(self.deep_view()))),
    {
        let ghost s = self.deep_view();
        let known: usize = self.transactional_producers.len();
        let descriptions = self.describe_all();
        let ghost all = descriptions.deep_view();
        proof {
            sorted_map::finite_sets_are_listed::<String>(s.transactional_producers.dom());
            sorted_map::strictly_sorted_unique::<String>(known_ids(s));
            no_more_than_ids(s, known_ids(s));
        }
        let mut counts = TransactionStateCounts::default();
        let mut i: usize = 0;
        assert(all.take(0) =~= Seq::empty());
        while i < descriptions.len()
            invariant
                i <= descriptions@.len(),
                descriptions@.len() <= known,
                known < i64::MAX,
                all == descriptions.deep_view(),
                counts == counts_of(all.take(i as int)),
                counts.empty <= i,
                counts.ongoing <= i,
                counts.complete_commit <= i,
                counts.complete_abort <= i,
            decreases descriptions@.len() - i,
        {
            proof {
                assert(all[i as int] == descriptions@[i as int].deep_view());
                sorted_map::prefix_grows(all, i as int);
            }
            counts.record(descriptions[i].state);
            i = i + 1;
        }
        assert(all.take(i as int) =~= all);
        counts
    }
}

/// There are no more descriptions than ids.
proof fn no_more_than_ids(s: LogStateView, ids: Seq<Seq<char>>)
    ensures
        all_described(s, ids).len() <= ids.len(),
    decreases ids.len(),
{
    if ids.len() > 0 {
        no_more_than_ids(s, ids.drop_last());
    }
}

/// Whether an open transaction has run out of time.
pub open spec fn has_timed_out(transaction: MemoryTransactionView, now: int) -> bool {
    transaction.status == TransactionStatus::Ongoing && transaction.expires_at is Some && transaction.expires_at->0 <= now
}

/// The state after open transactions that have run out of time have been aborted.
pub open spec fn timed_out(s: LogStateView, now: int) -> LogStateView {
    LogStateView {
        transactions: s.transactions.map_values(
            |transaction: MemoryTransactionView|
                if has_timed_out(transaction, now) {
                    MemoryTransactionView { status: TransactionStatus::Aborted, ..transaction }
                } else {
                    transaction
                },
        ),
        producers: s.producers.map_values(
            |producer: MemoryProducerView|
                if producer.current_transaction_id is Some && s.transactions.contains_key(producer.current_transaction_id->0)
                    && has_timed_out(s.transactions[producer.current_transaction_id->0], now) {
                    MemoryProducerView {
                        current_transaction_id: None,
                        last_transaction_update_ms: time::whole_millis(now) as i64,
                        ..producer
                    }
                } else {
                    producer
                },
        ),
        ..s
    }
}

/// The open transactions that have run out of time.
pub open spec fn overdue(s: LogStateView, now: int) -> Map<u128, MemoryTransactionView> {
    sorted_map::filtered(s.transactions, |id: u128, transaction: MemoryTransactionView| has_timed_out(transaction, now))
}

fn is_timed_out(transaction: &MemoryTransaction, now: Timestamp) -> (r: bool)
    ensures
        r == has_timed_out(transaction.deep_view(), now.deep_view()),
{
    match transaction.expires_at {
        Some(deadline) => transaction.status == TransactionStatus::Ongoing && deadline.nanos <= now.nanos,
        None => false,
    }
}

impl LogState {
    /// Aborts open transactions that have run out of time, and counts them.
    pub fn abort_expired_transactions(&mut self, now: Timestamp) -> (r: u64)
        ensures
            final(self).deep_view() == timed_out(old(self).deep_view(), now.deep_view()),
            r == overdue(old(self).deep_view(), now.deep_view()).dom().len(),
    {
        let ghost s = self.deep_view();
        let ghost t = now.deep_view();
        let ghost late = |id: u128, transaction: MemoryTransactionView| has_timed_out(transaction, t);
        let test = |id: &u128, transaction: &MemoryTransaction| -> (b: bool)
            ensures b == late(id.deep_view(), transaction.deep_view())
        {
            is_timed_out(transaction, now)
        };
        let expired = self.transactions.keys_where(test, Ghost(late));
        proof {
            assert(sorted_map::filtered(s.transactions, late) == overdue(s, t));
            sorted_map::strictly_sorted_unique::<u128>(expired.deep_view());
            assert(expired.deep_view().len() == expired@.len());
        }
        let now_ms: i64 = now.millis();
        let transactions = &self.transactions;
        let ghost released = |producer: MemoryProducerView|
            if producer.current_transaction_id is Some && s.transactions.contains_key(producer.current_transaction_id->0)
                && has_timed_out(s.transactions[producer.current_transaction_id->0], t) {
                MemoryProducerView { current_transaction_id: None, last_transaction_update_ms: now_ms, ..producer }
            } else {
                producer
            };
        let release = |producer: &MemoryProducer| -> (after: MemoryProducer)
            ensures after.deep_view() == released(producer.deep_view())
        {
            let mut after = producer.duplicate();
            if let Some(id) = producer.current_transaction_id {
                if let Some(transaction) = transactions.get(&id) {
                    if is_timed_out(transaction, now) {
                        after.current_transaction_id = None;
                        after.last_transaction_update_ms = now_ms;
                    }
                }
            }
            after
        };
        self.producers.update_values(release, Ghost(released));
        let ghost aborted = |transaction: MemoryTransactionView|
            if has_timed_out(transaction, t) {
                MemoryTransactionView { status: TransactionStatus::Aborted, ..transaction }
            } else {
                transaction
            };
        let abort = |transaction: &MemoryTransaction| -> (after: MemoryTransaction)
            ensures after.deep_view() == aborted(transaction.deep_view())
        {
            let mut after = transaction.duplicate();
            if is_timed_out(transaction, now) {
                after.status = TransactionStatus::Aborted;
            }
            after
        };
        self.transactions.update_values(abort, Ghost(aborted));
        proof {
            assert(self.transactions.deep_view() =~= timed_out(s, t).transactions);
            assert(self.producers.deep_view() =~= timed_out(s, t).producers);
        }
        expired.len() as u64
    }
}

} // verus!
