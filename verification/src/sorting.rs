//! Putting a log in order of time.

use crate::counts::{sum_for, Posting};
use crate::entry::{entry_views, EntryView, ListeningEntry};
use crate::time::moment_after;
use crate::windows::{postings_until, subject_key, window_postings, window_total, Subject, Window};
use vstd::prelude::*;

verus! {

/// Whether `sorted` holds the events of `input` in ascending order of time,
/// events of the same time in the order in which `input` has them.
pub open spec fn is_stable_sort(sorted: Seq<EntryView>, input: Seq<EntryView>) -> bool {
    exists|order: Seq<int>| is_stable_order(order, sorted, input)
}

/// Whether `order` tells, for each place of `sorted`, the place of `input`
/// that its event comes from.
pub open spec fn is_stable_order(order: Seq<int>, sorted: Seq<EntryView>, input: Seq<EntryView>) -> bool {
    &&& is_rearrangement(order, sorted, input)
    &&& forall|i: int, j: int|
        0 <= i < j < sorted.len() ==> !moment_after(
            (#[trigger] sorted[i]).secs,
            sorted[i].nanos,
            (#[trigger] sorted[j]).secs,
            sorted[j].nanos,
        )
    &&& forall|i: int, j: int|
        0 <= i < j < order.len() && sorted[i].secs == sorted[j].secs && sorted[i].nanos
            == sorted[j].nanos ==> #[trigger] order[i] < #[trigger] order[j]
}

/// Whether the event at place `p` of `input` comes before the one at place
/// `q` when `input` is put in order: the earlier one first, and of two of the
/// same time the one that stands first.
pub open spec fn place_before(input: Seq<EntryView>, p: int, q: int) -> bool {
    moment_after(input[q].secs, input[q].nanos, input[p].secs, input[p].nanos) || (input[p].secs
        == input[q].secs && input[p].nanos == input[q].nanos && p < q)
}

proof fn lemma_order_ascends(
    order: Seq<int>,
    sorted: Seq<EntryView>,
    input: Seq<EntryView>,
    i: int,
    j: int,
)
    requires
        is_stable_order(order, sorted, input),
        0 <= i < j < order.len(),
    ensures
        place_before(input, order[i], order[j]),
{
    assert(sorted[i] == input[order[i]]);
    assert(sorted[j] == input[order[j]]);
    assert(!moment_after(sorted[i].secs, sorted[i].nanos, sorted[j].secs, sorted[j].nanos));
}

proof fn lemma_order_mismatch(
    first: Seq<int>,
    second: Seq<int>,
    sorted_first: Seq<EntryView>,
    sorted_second: Seq<EntryView>,
    input: Seq<EntryView>,
    j: int,
)
    requires
        is_stable_order(first, sorted_first, input),
        is_stable_order(second, sorted_second, input),
        0 <= j < first.len(),
        forall|i: int| 0 <= i < j ==> first[i] == second[i],
    ensures
        !place_before(input, first[j], second[j]),
{
    let a = first[j];
    let b = second[j];
    if place_before(input, a, b) {
        assert(second.contains(a));
        let m = choose|m: int| 0 <= m < second.len() && second[m] == a;
        if m < j {
            assert(first[m] == second[m]);
        } else if m > j {
            lemma_order_ascends(second, sorted_second, input, j, m);
        }
    }
}

proof fn lemma_orders_agree(
    first: Seq<int>,
    second: Seq<int>,
    sorted_first: Seq<EntryView>,
    sorted_second: Seq<EntryView>,
    input: Seq<EntryView>,
    j: int,
)
    requires
        is_stable_order(first, sorted_first, input),
        is_stable_order(second, sorted_second, input),
        0 <= j <= first.len(),
    ensures
        forall|i: int| 0 <= i < j ==> first[i] == second[i],
    decreases j,
{
    if j > 0 {
        lemma_orders_agree(first, second, sorted_first, sorted_second, input, j - 1);
        lemma_order_mismatch(first, second, sorted_first, sorted_second, input, j - 1);
        lemma_order_mismatch(second, first, sorted_second, sorted_first, input, j - 1);
    }
}

/// A log has one order by time: two lists that both hold its events in
/// ascending order, equal times in the order of the log, are the same list.
pub proof fn lemma_stable_sort_unique(
    first: Seq<EntryView>,
    second: Seq<EntryView>,
    input: Seq<EntryView>,
)
    requires
        is_stable_sort(first, input),
        is_stable_sort(second, input),
    ensures
        first == second,
{
    let one = choose|order: Seq<int>| is_stable_order(order, first, input);
    let two = choose|order: Seq<int>| is_stable_order(order, second, input);
    lemma_orders_agree(one, two, first, second, input, one.len() as int);
    assert forall|i: int| 0 <= i < first.len() implies first[i] == second[i] by {
        assert(first[i] == input[one[i]]);
        assert(second[i] == input[two[i]]);
    }
    assert(first =~= second);
}

/// In a log that is in order of time the seconds never go down.
pub proof fn lemma_sorted_seconds_ascend(sorted: Seq<EntryView>, input: Seq<EntryView>)
    requires
        is_stable_sort(sorted, input),
    ensures
        forall|a: int, b: int|
            0 <= a <= b < sorted.len() ==> (#[trigger] sorted[a]).secs <= (
            #[trigger] sorted[b]).secs,
{
    let order = choose|order: Seq<int>| is_stable_order(order, sorted, input);
    assert forall|a: int, b: int| 0 <= a <= b < sorted.len() implies (#[trigger] sorted[a]).secs
        <= (#[trigger] sorted[b]).secs by {
        if a < b {
            assert(!moment_after(sorted[a].secs, sorted[a].nanos, sorted[b].secs, sorted[b].nanos));
        }
    }
}

/// Calls `slice::sort_by_key` with the seconds and nanoseconds of each event
/// as its key. Trusted: the sort is stable and ascending, and keeps every
/// event.
#[verifier::external_body]
pub(crate) fn sort_by_time(entries: &mut Vec<ListeningEntry>)
    ensures
        is_stable_sort(entry_views(final(entries)@), entry_views(old(entries)@)),
{
    entries.sort_by_key(|entry| (entry.timestamp.seconds(), entry.timestamp.subsec_nanos()));
}

// ---------------------------------------------------------------------
// Order does not change what the whole log counts
// ---------------------------------------------------------------------

/// The play time that one event adds under `key`.
pub open spec fn share_of(event: EntryView, subject: Subject, key: Seq<char>) -> nat {
    if subject_key(event, subject) == key {
        event.ms_played as nat
    } else {
        0
    }
}

/// The play time that the events of a log add under `key`.
pub open spec fn play_time(events: Seq<EntryView>, subject: Subject, key: Seq<char>) -> nat
    decreases events.len(),
{
    if events.len() == 0 {
        0
    } else {
        play_time(events.drop_last(), subject, key) + share_of(events.last(), subject, key)
    }
}

proof fn lemma_play_time_until(
    events: Seq<EntryView>,
    subject: Subject,
    latest: EntryView,
    key: Seq<char>,
)
    ensures
        sum_for(postings_until(events, subject, Window::Lifetime, latest), key) == play_time(
            events,
            subject,
            key,
        ),
    decreases events.len(),
{
    if events.len() > 0 {
        lemma_play_time_until(events.drop_last(), subject, latest, key);
        let front = postings_until(events.drop_last(), subject, Window::Lifetime, latest);
        let next = Posting {
            key: subject_key(events.last(), subject),
            amount: events.last().ms_played,
        };
        assert(front.push(next).drop_last() =~= front);
    }
}

/// What the whole log counts under a key is the play time of the events
/// with that key.
pub proof fn lemma_lifetime_is_play_time(events: Seq<EntryView>, subject: Subject, key: Seq<char>)
    ensures
        sum_for(window_postings(events, subject, Window::Lifetime), key) == play_time(
            events,
            subject,
            key,
        ),
{
    if events.len() > 0 {
        lemma_play_time_until(events, subject, events.last(), key);
    }
}

proof fn lemma_play_time_remove(events: Seq<EntryView>, subject: Subject, key: Seq<char>, m: int)
    requires
        0 <= m < events.len(),
    ensures
        play_time(events, subject, key) == play_time(events.remove(m), subject, key) + share_of(
            events[m],
            subject,
            key,
        ),
    decreases events.len(),
{
    if m == events.len() - 1 {
        assert(events.remove(m) =~= events.drop_last());
    } else {
        lemma_play_time_remove(events.drop_last(), subject, key, m);
        assert(events.drop_last().remove(m) =~= events.remove(m).drop_last());
        assert(events.remove(m).last() == events.last());
    }
}

/// Whether `order` tells, for each place of `moved`, the place of `input`
/// that its event comes from, every place of `input` once.
pub open spec fn is_rearrangement(
    order: Seq<int>,
    moved: Seq<EntryView>,
    input: Seq<EntryView>,
) -> bool {
    &&& order.len() == input.len()
    &&& moved.len() == input.len()
    &&& order.no_duplicates()
    &&& forall|p: int| 0 <= p < input.len() ==> #[trigger] order.contains(p)
    &&& forall|i: int|
        0 <= i < order.len() ==> 0 <= #[trigger] order[i] < input.len() && moved[i]
            == input[order[i]]
}

proof fn lemma_play_time_rearranged(
    order: Seq<int>,
    moved: Seq<EntryView>,
    input: Seq<EntryView>,
    subject: Subject,
    key: Seq<char>,
)
    requires
        is_rearrangement(order, moved, input),
    ensures
        play_time(moved, subject, key) == play_time(input, subject, key),
    decreases input.len(),
{
    let n = input.len() as int;
    if n > 0 {
        assert(order.contains(n - 1));
        let m = choose|m: int| 0 <= m < order.len() && order[m] == n - 1;
        let rest = order.remove(m);
        let fewer = moved.remove(m);
        let front = input.drop_last();
        assert forall|i: int| 0 <= i < rest.len() implies 0 <= #[trigger] rest[i] < front.len()
            && fewer[i] == front[rest[i]] by {
            if i < m {
                assert(rest[i] == order[i]);
            } else {
                assert(rest[i] == order[i + 1]);
            }
        }
        assert forall|i: int, j: int| 0 <= i < rest.len() && 0 <= j < rest.len() && i
            != j implies rest[i] != rest[j] by {
            let a = if i < m {
                i
            } else {
                i + 1
            };
            let b = if j < m {
                j
            } else {
                j + 1
            };
            assert(rest[i] == order[a] && rest[j] == order[b]);
        }
        assert forall|p: int| 0 <= p < front.len() implies #[trigger] rest.contains(p) by {
            assert(order.contains(p));
            let i = choose|i: int| 0 <= i < order.len() && order[i] == p;
            if i < m {
                assert(rest[i] == p);
            } else {
                assert(rest[i - 1] == p);
            }
        }
        lemma_play_time_rearranged(rest, fewer, front, subject, key);
        lemma_play_time_remove(moved, subject, key, m);
    }
}

/// Putting a log in order of time does not change what the whole log counts
/// under any key.
pub proof fn lemma_lifetime_total_sorted(
    sorted: Seq<EntryView>,
    input: Seq<EntryView>,
    subject: Subject,
    key: Seq<char>,
)
    requires
        is_stable_sort(sorted, input),
    ensures
        window_total(sorted, subject, Window::Lifetime, key) == window_total(
            input,
            subject,
            Window::Lifetime,
            key,
        ),
{
    let order = choose|order: Seq<int>| is_stable_order(order, sorted, input);
    lemma_play_time_rearranged(order, sorted, input, subject, key);
    lemma_lifetime_is_play_time(sorted, subject, key);
    lemma_lifetime_is_play_time(input, subject, key);
}

} // verus!
