//! That readers of a partition miss nothing.

use crate::error::ControlErrorView;
use crate::log_laws;
use crate::log_reads;
use crate::log_types::{FetchIsolation, LogStateView, MemoryTransactionView, StoredSpanView, TransactionStatus};
use crate::partition::PartitionKeyView;
use vstd::prelude::*;

verus! {

/// Whether a reader of some isolation may be shown a span: one of committed records is shown what lies
/// before `stable` and was written outside transactions or in one that was committed.
pub open spec fn may_be_shown(
    transactions: Map<u128, MemoryTransactionView>,
    span: StoredSpanView,
    stable: i64,
    isolation: FetchIsolation,
) -> bool {
    match isolation {
        FetchIsolation::ReadUncommitted => true,
        FetchIsolation::ReadCommitted => {
            &&& span.base_offset < stable
            &&& match span.transaction_id {
                None => true,
                Some(id) => transactions.contains_key(id) && transactions[id].status == TransactionStatus::Committed,
            }
        },
    }
}

/// How many bytes a list of spans takes.
pub open spec fn weight(spans: Seq<StoredSpanView>) -> int
    decreases spans.len(),
{
    if spans.len() == 0 {
        0
    } else {
        (spans[0].byte_end - spans[0].byte_start) + weight(spans.drop_first())
    }
}

proof fn weight_grows(spans: Seq<StoredSpanView>)
    requires
        spans.len() > 0,
    ensures
        weight(spans) == weight(spans.drop_last()) + (spans.last().byte_end - spans.last().byte_start),
    decreases spans.len(),
{
    if spans.len() > 1 {
        weight_grows(spans.drop_first());
        assert(spans.drop_first().drop_last() =~= spans.drop_last().drop_first());
        assert(spans.drop_first().last() == spans.last());
        assert(spans.drop_last()[0] == spans[0]);
    } else {
        assert(spans.drop_first() =~= Seq::empty());
        assert(spans.drop_last() =~= Seq::empty());
        assert(spans.last() == spans[0]);
    }
}

/// The bytes of some spans are those of the first and those of the others.
pub proof fn bytes_add_up(spans: Seq<StoredSpanView>)
    ensures
        log_reads::bytes_of(spans) == weight(spans),
    decreases spans.len(),
{
    if spans.len() > 0 {
        bytes_add_up(spans.drop_last());
        weight_grows(spans);
    }
}

/// Whether a span is one that a fetch from `offset` on looks for.
pub open spec fn is_wanted(
    transactions: Map<u128, MemoryTransactionView>,
    span: StoredSpanView,
    offset: i64,
    stable: i64,
    isolation: FetchIsolation,
) -> bool {
    span.last_offset >= offset && may_be_shown(transactions, span, stable, isolation)
}

/// Where readers of some isolation stop at the latest.
spec fn end_of_sight(stable: i64, isolation: FetchIsolation) -> Option<i64> {
    match isolation {
        FetchIsolation::ReadCommitted => Some(stable),
        FetchIsolation::ReadUncommitted => None,
    }
}

/// Whether some spans are what is wanted of the first `n` of a log, and nothing more is wanted, or the
/// next span does not fit.
spec fn stops_at(
    transactions: Map<u128, MemoryTransactionView>,
    spans: Seq<StoredSpanView>,
    got: Seq<StoredSpanView>,
    n: int,
    offset: i64,
    max_bytes: int,
    stable: i64,
    isolation: FetchIsolation,
) -> bool {
    &&& forall|k: int| 0 <= k < n && is_wanted(transactions, #[trigger] spans[k], offset, stable, isolation) ==> got.contains(spans[k])
    &&& forall|j: int| 0 <= j < got.len() ==> spans.take(n).contains(#[trigger] got[j])
    &&& {
        ||| forall|k: int| n <= k < spans.len() ==> !is_wanted(transactions, #[trigger] spans[k], offset, stable, isolation)
        ||| {
            &&& n < spans.len()
            &&& got.len() > 0
            &&& is_wanted(transactions, spans[n], offset, stable, isolation)
            &&& weight(got) + (spans[n].byte_end - spans[n].byte_start) > max_bytes
        }
    }
}

proof fn fetches_stop_in_one_place(
    transactions: Map<u128, MemoryTransactionView>,
    spans: Seq<StoredSpanView>,
    i: int,
    taken: Seq<StoredSpanView>,
    offset: i64,
    max_bytes: int,
    stable: i64,
    isolation: FetchIsolation,
) -> (n: int)
    requires
        0 <= i <= spans.len(),
        forall|a: int, b: int| 0 <= a < b < spans.len() ==> (#[trigger] spans[a]).base_offset < (#[trigger] spans[b]).base_offset,
        forall|k: int| 0 <= k < i && is_wanted(transactions, #[trigger] spans[k], offset, stable, isolation) ==> taken.contains(spans[k]),
        forall|j: int| 0 <= j < taken.len() ==> spans.take(i).contains(#[trigger] taken[j]),
    ensures
        i <= n <= spans.len(),
        stops_at(
            transactions,
            spans,
            log_reads::fetched(transactions, spans, i, taken, offset, max_bytes, end_of_sight(stable, isolation)),
            n,
            offset,
            max_bytes,
            stable,
            isolation,
        ),
    decreases spans.len() - i,
{
    let before = end_of_sight(stable, isolation);
    if i == spans.len() {
        assert(stops_at(transactions, spans, taken, i, offset, max_bytes, stable, isolation));
        i
    } else {
        assert forall|span: StoredSpanView| #[trigger] spans.take(i).contains(span) implies spans.take(i + 1).contains(span) by {
            let k = choose|k: int| 0 <= k < i && spans.take(i)[k] == span;
            assert(spans.take(i + 1)[k] == span);
        }
        assert forall|j: int| 0 <= j < taken.len() implies spans.take(i + 1).contains(#[trigger] taken[j]) by {
            assert(spans.take(i).contains(taken[j]));
        }
        if spans[i].last_offset < offset {
            fetches_stop_in_one_place(transactions, spans, i + 1, taken, offset, max_bytes, stable, isolation)
        } else if before is Some && spans[i].base_offset >= before->0 {
            assert forall|k: int| i <= k < spans.len() implies !is_wanted(transactions, #[trigger] spans[k], offset, stable, isolation) by {
                if i < k {
                    assert(spans[i].base_offset < spans[k].base_offset);
                }
            }
            assert(stops_at(transactions, spans, taken, i, offset, max_bytes, stable, isolation));
            i
        } else if before is Some && !log_reads::is_visible(transactions, spans[i]) {
            fetches_stop_in_one_place(transactions, spans, i + 1, taken, offset, max_bytes, stable, isolation)
        } else if taken.len() > 0 && log_reads::bytes_of(taken) + log_reads::span_size(spans[i]) > max_bytes {
            bytes_add_up(taken);
            assert(stops_at(transactions, spans, taken, i, offset, max_bytes, stable, isolation));
            i
        } else {
            let more = taken.push(spans[i]);
            assert forall|k: int| 0 <= k < i + 1 && is_wanted(transactions, #[trigger] spans[k], offset, stable, isolation)
                implies more.contains(spans[k]) by {
                if k < i {
                    let j = choose|j: int| 0 <= j < taken.len() && taken[j] == spans[k];
                    assert(more[j] == spans[k]);
                } else {
                    assert(more[taken.len() as int] == spans[k]);
                }
            }
            assert forall|j: int| 0 <= j < more.len() implies spans.take(i + 1).contains(#[trigger] more[j]) by {
                if j < taken.len() {
                    assert(more[j] == taken[j]);
                } else {
                    assert(spans.take(i + 1)[i] == spans[i]);
                }
            }
            fetches_stop_in_one_place(transactions, spans, i + 1, more, offset, max_bytes, stable, isolation)
        }
    }
}

/// A fetch leaves nothing out. What the log holds from the offset on, up to the last span given, and
/// what the reader may be shown of it, is given. Where something more could be shown, the first such
/// span would not fit beside what is given.
pub proof fn fetches_leave_no_gaps(s: LogStateView, p: PartitionKeyView, offset: i64, max_bytes: int, isolation: FetchIsolation, k: int)
    requires
        log_laws::logs_are_sound(s),
        log_reads::fetch_outcome(s, p, offset, max_bytes, isolation) is Ok,
        0 <= k < s.partitions[p].spans.len(),
        s.partitions[p].spans[k].last_offset >= offset,
        may_be_shown(
            s.transactions,
            s.partitions[p].spans[k],
            log_reads::fetch_outcome(s, p, offset, max_bytes, isolation)->Ok_0.last_stable_offset,
            isolation,
        ),
    ensures
        ({
            let got = log_reads::fetch_outcome(s, p, offset, max_bytes, isolation)->Ok_0;
            let spans = s.partitions[p].spans;
            &&& got.spans.len() > 0
            &&& spans[k].base_offset <= got.spans.last().base_offset ==> got.spans.contains(spans[k])
            &&& !got.spans.contains(spans[k]) ==> exists|n: int|
                0 <= n <= k && !got.spans.contains(#[trigger] spans[n]) && is_wanted(
                    s.transactions,
                    spans[n],
                    offset,
                    got.last_stable_offset,
                    isolation,
                ) && weight(got.spans) + (spans[n].byte_end - spans[n].byte_start) > max_bytes && (forall|m: int|
                    0 <= m < n && is_wanted(s.transactions, #[trigger] spans[m], offset, got.last_stable_offset, isolation)
                        ==> got.spans.contains(spans[m]))
        }),
{
    let got = log_reads::fetch_outcome(s, p, offset, max_bytes, isolation)->Ok_0;
    let log = s.partitions[p];
    let spans = log.spans;
    assert(log_laws::log_is_sound(p, log));
    assert forall|a: int, b: int| 0 <= a < b < spans.len() implies (#[trigger] spans[a]).base_offset < (#[trigger] spans[b]).base_offset by {
        assert(log_laws::span_fits(p, log.next_offset, spans[a]));
        assert(spans[a].last_offset < spans[b].base_offset);
    }
    let stable = got.last_stable_offset;
    let n = fetches_stop_in_one_place(s.transactions, spans, 0, Seq::empty(), offset, max_bytes, stable, isolation);
    assert(is_wanted(s.transactions, spans[k], offset, stable, isolation));
    if k < n {
        assert(got.spans.contains(spans[k]));
    } else {
        let last = got.spans.last();
        assert(got.spans[got.spans.len() - 1] == last);
        assert(spans.take(n).contains(last));
        let at = choose|at: int| 0 <= at < n && spans.take(n)[at] == last;
        assert(spans[at].base_offset < spans[k].base_offset);
        assert(is_wanted(s.transactions, spans[n], offset, stable, isolation));
        assert(!got.spans.contains(spans[n])) by {
            if got.spans.contains(spans[n]) {
                let j = choose|j: int| 0 <= j < got.spans.len() && got.spans[j] == spans[n];
                assert(spans.take(n).contains(got.spans[j]));
                let x = choose|x: int| 0 <= x < n && spans.take(n)[x] == spans[n];
                assert(spans[x].base_offset < spans[n].base_offset);
            }
        }
    }
}

/// What a fetch tells of a log: it ends where the next record will stand, and readers of committed
/// records see it up to the first record of an open transaction, or to its end. A fetch is refused
/// just where there is no such log, or where the offset lies before its start or behind its end.
pub proof fn fetches_tell_the_bounds(s: LogStateView, p: PartitionKeyView, offset: i64, max_bytes: int, isolation: FetchIsolation)
    ensures
        match log_reads::fetch_outcome(s, p, offset, max_bytes, isolation) {
            Err(refusal) => if s.partitions.contains_key(p) {
                &&& offset < s.partitions[p].log_start_offset || offset > s.partitions[p].next_offset
                &&& refusal == ControlErrorView::OffsetOutOfRange {
                    partition: p,
                    offset,
                    start: s.partitions[p].log_start_offset,
                    end: s.partitions[p].next_offset,
                }
            } else {
                refusal == (ControlErrorView::PartitionNotFound { topic: p.topic, partition: p.partition })
            },
            Ok(got) => {
                &&& s.partitions.contains_key(p)
                &&& s.partitions[p].log_start_offset <= offset <= s.partitions[p].next_offset
                &&& got.log_start_offset == s.partitions[p].log_start_offset
                &&& got.high_watermark == s.partitions[p].next_offset
                &&& is_stable_end(s, p, got.last_stable_offset)
            },
        },
        s.partitions.contains_key(p) ==> is_stable_end(s, p, log_reads::watermarks(s.transactions, s.partitions[p]).last_stable_offset),
        s.partitions.contains_key(p) ==> log_reads::watermarks(s.transactions, s.partitions[p]).high_watermark == s.partitions[p].next_offset,
        s.partitions.contains_key(p) ==> log_reads::watermarks(s.transactions, s.partitions[p]).log_start_offset
            == s.partitions[p].log_start_offset,
{
    if s.partitions.contains_key(p) {
        let spans = s.partitions[p].spans;
        log_laws::first_open_is_the_smallest(s.transactions, spans);
        if log_reads::first_open(s.transactions, spans) is Some {
            let least = log_reads::first_open(s.transactions, spans)->0;
            let i = choose|i: int| 0 <= i < spans.len() && log_reads::is_open(s.transactions, #[trigger] spans[i]) && spans[i].base_offset == least;
            assert(is_under_way(s.transactions, spans[i]));
            assert forall|j: int| 0 <= j < spans.len() && is_under_way(s.transactions, #[trigger] spans[j]) implies least <= spans[j].base_offset by {
                assert(log_reads::is_open(s.transactions, spans[j]));
            }
        } else {
            assert forall|j: int| 0 <= j < spans.len() implies !is_under_way(s.transactions, #[trigger] spans[j]) by {
                assert(!log_reads::is_open(s.transactions, spans[j]));
            }
        }
    }
}

/// Whether the transaction that wrote a span has neither been committed nor aborted.
pub open spec fn is_under_way(transactions: Map<u128, MemoryTransactionView>, span: StoredSpanView) -> bool {
    match span.transaction_id {
        None => false,
        Some(id) => transactions.contains_key(id) && transactions[id].status != TransactionStatus::Committed && transactions[id].status
            != TransactionStatus::Aborted,
    }
}

/// Whether no open transaction wrote before an offset, and the offset is the first that one wrote, or
/// the end of the log.
pub open spec fn is_stable_end(s: LogStateView, p: PartitionKeyView, offset: i64) -> bool {
    let spans = s.partitions[p].spans;
    if exists|i: int| 0 <= i < spans.len() && is_under_way(s.transactions, #[trigger] spans[i]) {
        &&& exists|i: int| 0 <= i < spans.len() && is_under_way(s.transactions, #[trigger] spans[i]) && spans[i].base_offset == offset
        &&& forall|i: int| 0 <= i < spans.len() && is_under_way(s.transactions, #[trigger] spans[i]) ==> offset <= spans[i].base_offset
    } else {
        offset == s.partitions[p].next_offset
    }
}

/// Two fetches in a row read a log once from end to end: a reader of everything that goes on behind the
/// last record it was given is given the spans that follow, none twice and none left out.
pub proof fn readers_go_on_where_they_stopped(s: LogStateView, p: PartitionKeyView, offset: i64, max_bytes: int, k: int)
    requires
        log_laws::logs_are_sound(s),
        log_reads::fetch_outcome(s, p, offset, max_bytes, FetchIsolation::ReadUncommitted) is Ok,
        log_reads::fetch_outcome(s, p, offset, max_bytes, FetchIsolation::ReadUncommitted)->Ok_0.spans.len() > 0,
        0 <= k < s.partitions[p].spans.len(),
    ensures
        ({
            let got = log_reads::fetch_outcome(s, p, offset, max_bytes, FetchIsolation::ReadUncommitted)->Ok_0;
            let next = (got.spans.last().last_offset + 1) as i64;
            let span = s.partitions[p].spans[k];
            span.last_offset >= offset ==> (got.spans.contains(span) <==> span.last_offset < next)
        }),
{
    let isolation = FetchIsolation::ReadUncommitted;
    let got = log_reads::fetch_outcome(s, p, offset, max_bytes, isolation)->Ok_0;
    let log = s.partitions[p];
    let spans = log.spans;
    let span = spans[k];
    assert(log_laws::log_is_sound(p, log));
    assert(log_laws::span_fits(p, log.next_offset, span));
    log_laws::fetches_show_what_they_may(s, p, offset, max_bytes, isolation);
    let last = got.spans.last();
    assert(got.spans[got.spans.len() - 1] == last);
    assert(spans.contains(last));
    let at = choose|at: int| 0 <= at < spans.len() && spans[at] == last;
    assert(log_laws::span_fits(p, log.next_offset, spans[at]));
    if span.last_offset >= offset {
        fetches_leave_no_gaps(s, p, offset, max_bytes, isolation, k);
        if got.spans.contains(span) {
            let j = choose|j: int| 0 <= j < got.spans.len() && got.spans[j] == span;
            if j < got.spans.len() - 1 {
                assert(got.spans[j].last_offset < got.spans[got.spans.len() - 1].base_offset);
            }
        } else {
            if k < at {
                assert(spans[k].last_offset < spans[at].base_offset);
            } else if at < k {
                assert(spans[at].last_offset < spans[k].base_offset);
            }
        }
    }
}

} // verus!
