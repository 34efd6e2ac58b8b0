//! The genre trend: play time per genre tag, in buckets of about a month.
//!
//! A bucket starts at midnight of the day of its first event. An event whose
//! day lies more than thirty days after the start of the open bucket closes
//! that bucket and opens the next; a bucket without any tag is dropped. The
//! width of a bucket therefore depends on the gaps in the log.

use crate::counts::{
    lemma_distinct, new_tally, post, posting_keys, tallies, tally_keys, tally_totals, Posting,
};
use crate::entry::{entry_views, EntryView, ListeningEntry};
use crate::table::Tally;
use crate::time::{day_start, Timestamp};
use vstd::prelude::*;

verus! {

/// The seconds after the start of a bucket within which a day still belongs
/// to it: thirty days.
pub const BUCKET_SECONDS: i64 = 2_592_000;

/// One bucket of the genre trend.
#[derive(Clone, Debug)]
pub struct GenreBucket {
    /// Midnight of the day on which the bucket starts.
    pub start: Timestamp,
    /// The play time counted for each genre tag of the bucket.
    pub weights: Tally,
}

/// A bucket as plain values: the seconds and nanoseconds of its start, its
/// genre tags, and the weight of each tag.
pub struct BucketView {
    pub start: int,
    pub nanos: int,
    pub genres: Seq<Seq<char>>,
    pub weights: Seq<u64>,
}

impl View for GenreBucket {
    type V = BucketView;

    open spec fn view(&self) -> BucketView {
        BucketView {
            start: self.start.secs(),
            nanos: self.start.nanos(),
            genres: self.weights.keys(),
            weights: self.weights.values(),
        }
    }
}

/// The buckets of a list as plain values.
pub open spec fn bucket_views(buckets: Seq<GenreBucket>) -> Seq<BucketView> {
    Seq::new(buckets.len(), |i: int| buckets[i]@)
}

/// The bucket that starts at second `start`, a midnight, and has counted
/// `postings`.
pub open spec fn bucket_of(start: int, postings: Seq<Posting>) -> BucketView {
    BucketView { start, nanos: 0, genres: tally_keys(postings), weights: tally_totals(postings) }
}

/// The start of the bucket that is open before event `i` is looked at.
pub open spec fn running_start(events: Seq<EntryView>, i: int) -> int
    decreases i, 0int,
{
    if i <= 0 {
        day_start(events[0].secs)
    } else if opens_bucket(events, i - 1) {
        day_start(events[i - 1].secs)
    } else {
        running_start(events, i - 1)
    }
}

/// Whether event `i` opens a new bucket: its day lies more than thirty days
/// after the start of the open one.
pub open spec fn opens_bucket(events: Seq<EntryView>, i: int) -> bool
    decreases i, 1int,
{
    i > 0 && day_start(events[i].secs) > running_start(events, i) + BUCKET_SECONDS
}

/// The postings of one event: its play time under each of its genre tags.
pub open spec fn genre_postings(event: EntryView) -> Seq<Posting> {
    Seq::new(event.genres.len(), |k: int| Posting { key: event.genres[k], amount: event.ms_played })
}

/// The postings of the bucket that is open before event `i` is looked at.
pub open spec fn open_postings(events: Seq<EntryView>, i: int) -> Seq<Posting>
    decreases i,
{
    if i <= 0 {
        Seq::empty()
    } else if opens_bucket(events, i - 1) {
        genre_postings(events[i - 1])
    } else {
        open_postings(events, i - 1) + genre_postings(events[i - 1])
    }
}

/// The buckets that are closed and kept before event `i` is looked at.
pub open spec fn closed_buckets(events: Seq<EntryView>, i: int) -> Seq<BucketView>
    decreases i,
{
    if i <= 0 {
        Seq::empty()
    } else if opens_bucket(events, i - 1) && tally_keys(open_postings(events, i - 1)).len() > 0 {
        closed_buckets(events, i - 1).push(
            bucket_of(running_start(events, i - 1), open_postings(events, i - 1)),
        )
    } else {
        closed_buckets(events, i - 1)
    }
}

/// The genre trend of a log: its closed buckets, and the one still open at
/// the end if it has any tag.
pub open spec fn genre_series(events: Seq<EntryView>) -> Seq<BucketView> {
    let n = events.len() as int;
    if n == 0 {
        Seq::empty()
    } else if tally_keys(open_postings(events, n)).len() > 0 {
        closed_buckets(events, n).push(bucket_of(running_start(events, n), open_postings(events, n)))
    } else {
        closed_buckets(events, n)
    }
}

/// Counts the genre tags of one event into the open bucket.
fn post_genres(weights: &mut Tally, entry: &ListeningEntry, Ghost(carried): Ghost<Seq<Posting>>)
    requires
        tallies(old(weights), carried),
    ensures
        tallies(final(weights), carried + genre_postings(entry@)),
{
    let mut k: usize = 0;
    let ghost added = genre_postings(entry@);
    assert(carried + added.take(0) =~= carried);
    while k < entry.genres.len()
        invariant
            k <= entry.genres@.len(),
            added == genre_postings(entry@),
            tallies(weights, carried + added.take(k as int)),
        decreases entry.genres@.len() - k,
    {
        post(
            weights,
            entry.genres[k].as_str(),
            entry.ms_played,
            Ghost(carried + added.take(k as int)),
        );
        proof {
            assert((carried + added.take(k as int)).push(added[k as int]) =~= carried + added.take(
                k + 1,
            ));
        }
        k += 1;
    }
    assert(added.take(k as int) =~= added);
}

/// The genre trend of a log of events.
pub fn calculate_genre_history(entries: &Vec<ListeningEntry>) -> (history: Vec<GenreBucket>)
    ensures
        bucket_views(history@) == genre_series(entry_views(entries@)),
        forall|b: int| 0 <= b < history@.len() ==> (#[trigger] history@[b]).start.nanos() == 0,
        forall|b: int| 0 <= b < history@.len() ==> (#[trigger] history@[b]).weights.wf(),
{
    let mut history: Vec<GenreBucket> = Vec::new();
    let n = entries.len();
    let ghost events = entry_views(entries@);
    if n == 0 {
        assert(bucket_views(history@) =~= genre_series(events));
        return history;
    }
    let mut weights = new_tally();
    let mut start = entries[0].timestamp.start_of_day();
    let mut i: usize = 0;
    assert(bucket_views(history@) =~= closed_buckets(events, 0));
    while i < n
        invariant
            i <= n,
            n == entries@.len(),
            n > 0,
            events == entry_views(entries@),
            start.secs() == running_start(events, i as int),
            start.nanos() == 0,
            tallies(&weights, open_postings(events, i as int)),
            bucket_views(history@) == closed_buckets(events, i as int),
            forall|b: int| 0 <= b < history@.len() ==> (#[trigger] history@[b]).start.nanos() == 0,
            forall|b: int| 0 <= b < history@.len() ==> (#[trigger] history@[b]).weights.wf(),
        decreases n - i,
    {
        let entry = &entries[i];
        let day = entry.timestamp.start_of_day();
        assert(entry@ == events[i as int]);
        let ghost carried = open_postings(events, i as int);
        let ghost closed = bucket_views(history@);
        if day.seconds() > start.seconds() + BUCKET_SECONDS {
            assert(i > 0) by {
                if i == 0 {
                    assert(running_start(events, 0) == day_start(events[0].secs));
                }
            }
            assert(opens_bucket(events, i as int));
            if weights.len() > 0 {
                history.push(GenreBucket { start, weights });
                proof {
                    assert(bucket_views(history@) =~= closed.push(
                        bucket_of(running_start(events, i as int), carried),
                    ));
                }
            }
            start = day;
            weights = new_tally();
            assert(Seq::<Posting>::empty() + genre_postings(entry@) =~= genre_postings(entry@));
            post_genres(&mut weights, entry, Ghost(Seq::empty()));
        } else {
            assert(!opens_bucket(events, i as int));
            post_genres(&mut weights, entry, Ghost(carried));
        }
        i += 1;
    }
    if weights.len() > 0 {
        let ghost closed = bucket_views(history@);
        history.push(GenreBucket { start, weights });
        proof {
            assert(bucket_views(history@) =~= closed.push(
                bucket_of(running_start(events, n as int), open_postings(events, n as int)),
            ));
        }
    }
    history
}

// ---------------------------------------------------------------------
// The buckets stand in order of time
// ---------------------------------------------------------------------

proof fn lemma_closed_before_open(events: Seq<EntryView>, i: int)
    requires
        0 <= i,
    ensures
        forall|b: int|
            0 <= b < closed_buckets(events, i).len() ==> (#[trigger] closed_buckets(
                events,
                i,
            )[b]).start + BUCKET_SECONDS < running_start(events, i),
        forall|a: int, b: int|
            0 <= a < b < closed_buckets(events, i).len() ==> (#[trigger] closed_buckets(
                events,
                i,
            )[a]).start + BUCKET_SECONDS < (#[trigger] closed_buckets(events, i)[b]).start,
    decreases i,
{
    if i > 0 {
        lemma_closed_before_open(events, i - 1);
        let before = closed_buckets(events, i - 1);
        let now = closed_buckets(events, i);
        assert forall|b: int| 0 <= b < now.len() implies (#[trigger] now[b]).start
            + BUCKET_SECONDS < running_start(events, i) by {
            if b < before.len() {
                assert(now[b] == before[b]);
            }
        }
        assert forall|a: int, b: int| 0 <= a < b < now.len() implies (#[trigger] now[a]).start
            + BUCKET_SECONDS < (#[trigger] now[b]).start by {
            assert(now[a] == before[a]);
            if b < before.len() {
                assert(now[b] == before[b]);
            }
        }
    }
}

/// The buckets of a genre trend stand in order of time, each starting more
/// than thirty days after the start of the one before, and none is empty.
pub proof fn lemma_genre_series_ascending(events: Seq<EntryView>)
    ensures
        forall|a: int, b: int|
            0 <= a < b < genre_series(events).len() ==> (#[trigger] genre_series(events)[a]).start
                + BUCKET_SECONDS < (#[trigger] genre_series(events)[b]).start,
        forall|b: int|
            0 <= b < genre_series(events).len() ==> (#[trigger] genre_series(
                events,
            )[b]).genres.len() > 0,
{
    let n = events.len() as int;
    let series = genre_series(events);
    lemma_closed_before_open(events, n);
    lemma_closed_not_empty(events, n);
    let closed = closed_buckets(events, n);
    assert forall|a: int, b: int| 0 <= a < b < series.len() implies (#[trigger] series[a]).start
        + BUCKET_SECONDS < (#[trigger] series[b]).start by {
        assert(series[a] == closed[a]);
        if b < closed.len() {
            assert(series[b] == closed[b]);
        }
    }
    assert forall|b: int| 0 <= b < series.len() implies (#[trigger] series[b]).genres.len()
        > 0 by {
        if b < closed.len() {
            assert(series[b] == closed[b]);
        }
    }
}

proof fn lemma_closed_not_empty(events: Seq<EntryView>, i: int)
    requires
        0 <= i,
    ensures
        forall|b: int|
            0 <= b < closed_buckets(events, i).len() ==> (#[trigger] closed_buckets(
                events,
                i,
            )[b]).genres.len() > 0,
    decreases i,
{
    if i > 0 {
        lemma_closed_not_empty(events, i - 1);
        let before = closed_buckets(events, i - 1);
        let now = closed_buckets(events, i);
        assert forall|b: int| 0 <= b < now.len() implies (#[trigger] now[b]).genres.len() > 0 by {
            if b < before.len() {
                assert(now[b] == before[b]);
            }
        }
    }
}

// ---------------------------------------------------------------------
// Where the buckets start and what they hold
// ---------------------------------------------------------------------

/// Whether second `start` is midnight of the day of some event.
pub open spec fn is_event_day(events: Seq<EntryView>, start: int) -> bool {
    exists|e: int| 0 <= e < events.len() && day_start((#[trigger] events[e]).secs) == start
}

proof fn lemma_running_start_is_day(events: Seq<EntryView>, i: int)
    requires
        0 <= i <= events.len(),
        events.len() > 0,
    ensures
        is_event_day(events, running_start(events, i)),
    decreases i,
{
    if i <= 0 {
        assert(day_start(events[0].secs) == running_start(events, i));
    } else if opens_bucket(events, i - 1) {
        assert(day_start(events[i - 1].secs) == running_start(events, i));
    } else {
        lemma_running_start_is_day(events, i - 1);
    }
}

proof fn lemma_closed_start_is_day(events: Seq<EntryView>, i: int)
    requires
        0 <= i <= events.len(),
    ensures
        forall|b: int|
            0 <= b < closed_buckets(events, i).len() ==> is_event_day(
                events,
                (#[trigger] closed_buckets(events, i)[b]).start,
            ) && closed_buckets(events, i)[b].nanos == 0,
    decreases i,
{
    if i > 0 {
        lemma_closed_start_is_day(events, i - 1);
        lemma_running_start_is_day(events, i - 1);
        let before = closed_buckets(events, i - 1);
        let now = closed_buckets(events, i);
        assert forall|b: int| 0 <= b < now.len() implies is_event_day(
            events,
            (#[trigger] now[b]).start,
        ) && now[b].nanos == 0 by {
            if b < before.len() {
                assert(now[b] == before[b]);
            }
        }
    }
}

/// Every bucket of a genre trend starts at midnight of the day of one of the
/// events.
pub proof fn lemma_genre_series_starts(events: Seq<EntryView>)
    ensures
        forall|b: int|
            0 <= b < genre_series(events).len() ==> is_event_day(
                events,
                (#[trigger] genre_series(events)[b]).start,
            ) && genre_series(events)[b].nanos == 0,
{
    let n = events.len() as int;
    let series = genre_series(events);
    let closed = closed_buckets(events, n);
    lemma_closed_start_is_day(events, n);
    if n > 0 {
        lemma_running_start_is_day(events, n);
    }
    assert forall|b: int| 0 <= b < series.len() implies is_event_day(
        events,
        (#[trigger] series[b]).start,
    ) && series[b].nanos == 0 by {
        if b < closed.len() {
            assert(series[b] == closed[b]);
        }
    }
}

/// Whether the seconds of the events never go down along the log.
pub open spec fn seconds_ascend(events: Seq<EntryView>) -> bool {
    forall|a: int, b: int|
        0 <= a <= b < events.len() ==> (#[trigger] events[a]).secs <= (#[trigger] events[b]).secs
}

/// Whether some event carries the tag `genre` on a day from the day that
/// starts at `start` to the thirtieth day after it.
pub open spec fn tagged_within(events: Seq<EntryView>, start: int, genre: Seq<char>) -> bool {
    exists|e: int|
        0 <= e < events.len() && (#[trigger] events[e]).genres.contains(genre) && start
            <= day_start(events[e].secs) <= start + BUCKET_SECONDS
}

proof fn lemma_day_start_ascends(a: int, b: int)
    requires
        a <= b,
    ensures
        day_start(a) <= day_start(b),
{
    assert(a / 86_400 <= b / 86_400) by (nonlinear_arith)
        requires
            a <= b,
    ;
}

proof fn lemma_start_before_event(events: Seq<EntryView>, i: int)
    requires
        seconds_ascend(events),
        0 <= i < events.len(),
    ensures
        running_start(events, i) <= day_start(events[i].secs),
        running_start(events, i + 1) <= day_start(events[i].secs),
        !opens_bucket(events, i) ==> day_start(events[i].secs) <= running_start(events, i)
            + BUCKET_SECONDS,
    decreases i,
{
    if i > 0 {
        lemma_start_before_event(events, i - 1);
        assert(events[i - 1].secs <= events[i].secs);
        lemma_day_start_ascends(events[i - 1].secs, events[i].secs);
    }
}

proof fn lemma_open_postings_tagged(events: Seq<EntryView>, i: int)
    requires
        seconds_ascend(events),
        0 <= i <= events.len(),
    ensures
        forall|q: int|
            0 <= q < open_postings(events, i).len() ==> tagged_within(
                events,
                running_start(events, i),
                (#[trigger] open_postings(events, i)[q]).key,
            ),
    decreases i,
{
    if i > 0 {
        lemma_open_postings_tagged(events, i - 1);
        lemma_start_before_event(events, i - 1);
        let now = open_postings(events, i);
        let event = events[i - 1];
        let added = genre_postings(event);
        let start = running_start(events, i);
        assert forall|q: int| 0 <= q < now.len() implies tagged_within(
            events,
            start,
            (#[trigger] now[q]).key,
        ) by {
            let carried = now.len() - added.len();
            if q >= carried {
                let k = q - carried;
                assert(now[q] == added[k]);
                assert(event.genres[k] == now[q].key);
                assert(event.genres.contains(now[q].key));
                assert(events[i - 1].genres.contains(now[q].key) && start <= day_start(
                    events[i - 1].secs,
                ) <= start + BUCKET_SECONDS);
            } else {
                assert(now[q] == open_postings(events, i - 1)[q]);
            }
        }
    }
}

proof fn lemma_bucket_tagged(events: Seq<EntryView>, i: int, g: int)
    requires
        seconds_ascend(events),
        0 <= i <= events.len(),
        0 <= g < tally_keys(open_postings(events, i)).len(),
    ensures
        tagged_within(events, running_start(events, i), tally_keys(open_postings(events, i))[g]),
{
    let postings = open_postings(events, i);
    let genre = tally_keys(postings)[g];
    lemma_distinct(posting_keys(postings));
    assert(tally_keys(postings).contains(genre));
    assert(posting_keys(postings).contains(genre));
    let q = choose|q: int| 0 <= q < posting_keys(postings).len() && posting_keys(postings)[q]
        == genre;
    assert(postings[q].key == genre);
    lemma_open_postings_tagged(events, i);
}

proof fn lemma_closed_tagged(events: Seq<EntryView>, i: int)
    requires
        seconds_ascend(events),
        0 <= i <= events.len(),
    ensures
        forall|b: int, g: int|
            0 <= b < closed_buckets(events, i).len() && 0 <= g < closed_buckets(
                events,
                i,
            )[b].genres.len() ==> tagged_within(
                events,
                closed_buckets(events, i)[b].start,
                #[trigger] closed_buckets(events, i)[b].genres[g],
            ),
    decreases i,
{
    if i > 0 {
        lemma_closed_tagged(events, i - 1);
        let before = closed_buckets(events, i - 1);
        let now = closed_buckets(events, i);
        assert forall|b: int, g: int|
            0 <= b < now.len() && 0 <= g < now[b].genres.len() implies tagged_within(
            events,
            now[b].start,
            #[trigger] now[b].genres[g],
        ) by {
            if b < before.len() {
                assert(now[b] == before[b]);
            } else {
                lemma_bucket_tagged(events, i - 1, g);
            }
        }
    }
}

/// In the genre trend of a log whose seconds never go down, a bucket holds
/// only tags of events whose day lies from the start of the bucket to the
/// thirtieth day after it.
pub proof fn lemma_genre_series_tags(events: Seq<EntryView>)
    requires
        seconds_ascend(events),
    ensures
        forall|b: int, g: int|
            0 <= b < genre_series(events).len() && 0 <= g < genre_series(events)[b].genres.len()
                ==> tagged_within(
                events,
                genre_series(events)[b].start,
                #[trigger] genre_series(events)[b].genres[g],
            ),
{
    let n = events.len() as int;
    let series = genre_series(events);
    let closed = closed_buckets(events, n);
    lemma_closed_tagged(events, n);
    assert forall|b: int, g: int|
        0 <= b < series.len() && 0 <= g < series[b].genres.len() implies tagged_within(
        events,
        series[b].start,
        #[trigger] series[b].genres[g],
    ) by {
        if b < closed.len() {
            assert(series[b] == closed[b]);
        } else {
            lemma_bucket_tagged(events, n, g);
        }
    }
}

} // verus!