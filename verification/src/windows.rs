//! Time windows: the play time counted for artists and tracks over the last
//! four weeks, the last 180 days, and the whole log, and the rankings made
//! from those totals.

use crate::counts::{
    capped, post, sum_for, tallies, tally_keys, tally_totals, total_for, Posting,
};
use crate::entry::{entry_views, EntryView, ListeningEntry};
use crate::keys::{identity_key, identity_key_of, track_key, track_key_of};
use crate::ranking::{get_top_n, is_ranking};
use crate::table::Tally;
use crate::text::text_views;
use crate::time::{moment_after, moment_before};
use vstd::prelude::*;

verus! {

/// The seconds of the short window: four weeks.
pub const SHORT_WINDOW_SECONDS: i64 = 2_419_200;

/// The seconds of the medium window: 180 days.
pub const MEDIUM_WINDOW_SECONDS: i64 = 15_552_000;

/// The largest number of entries in a ranking.
pub const RANKING_LEN: usize = 50;

/// What is counted: artists, or tracks by an artist.
#[derive(Clone, Copy, Debug, PartialEq, Eq, Structural)]
pub enum Subject {
    Artist,
    Track,
}

/// The span of time over which play time is counted, ending at the latest
/// event of the log.
#[derive(Clone, Copy, Debug, PartialEq, Eq, Structural)]
pub enum Window {
    /// The last four weeks.
    Short,
    /// The last 180 days.
    Medium,
    /// The whole log.
    Lifetime,
}

/// The key under which an event is counted.
pub open spec fn subject_key(event: EntryView, subject: Subject) -> Seq<char> {
    match subject {
        Subject::Artist => identity_key(event.artist_name),
        Subject::Track => track_key(event.track_name, event.artist_name),
    }
}

/// The key under which an event is counted.
pub fn subject_key_of(entry: &ListeningEntry, subject: Subject) -> (key: String)
    ensures
        key@ == subject_key(entry@, subject),
{
    match subject {
        Subject::Artist => identity_key_of(entry.artist_name.as_str()),
        Subject::Track => track_key_of(entry.track_name.as_str(), entry.artist_name.as_str()),
    }
}

/// The keys under which the events of a log are counted, one per event.
pub open spec fn subject_keys(events: Seq<EntryView>, subject: Subject) -> Seq<Seq<char>> {
    Seq::new(events.len(), |i: int| subject_key(events[i], subject))
}

/// The seconds that a window reaches back; `None` for the whole log.
pub open spec fn window_span(window: Window) -> Option<int> {
    match window {
        Window::Short => Some(SHORT_WINDOW_SECONDS as int),
        Window::Medium => Some(MEDIUM_WINDOW_SECONDS as int),
        Window::Lifetime => None,
    }
}

/// Whether `event` lies in the window that ends at `latest`: strictly later
/// than the instant that many seconds before `latest`.
pub open spec fn in_window(event: EntryView, latest: EntryView, window: Window) -> bool {
    match window_span(window) {
        Some(span) => moment_after(
            event.secs,
            event.nanos,
            moment_before(latest.secs, latest.nanos, span).0,
            moment_before(latest.secs, latest.nanos, span).1,
        ),
        None => true,
    }
}

/// The postings of the events that lie in the window ending at `latest`.
pub open spec fn postings_until(
    events: Seq<EntryView>,
    subject: Subject,
    window: Window,
    latest: EntryView,
) -> Seq<Posting>
    decreases events.len(),
{
    if events.len() == 0 {
        Seq::empty()
    } else {
        let front = postings_until(events.drop_last(), subject, window, latest);
        if in_window(events.last(), latest, window) {
            front.push(
                Posting {
                    key: subject_key(events.last(), subject),
                    amount: events.last().ms_played,
                },
            )
        } else {
            front
        }
    }
}

/// The postings of a window: one for each event in it, the play time of the
/// event under its key. The window ends at the last event of the log.
pub open spec fn window_postings(events: Seq<EntryView>, subject: Subject, window: Window) -> Seq<
    Posting,
> {
    if events.len() == 0 {
        Seq::empty()
    } else {
        postings_until(events, subject, window, events.last())
    }
}

/// The play time counted for `key` in a window, as a tally holds it.
pub open spec fn window_total(
    events: Seq<EntryView>,
    subject: Subject,
    window: Window,
    key: Seq<char>,
) -> u64 {
    total_for(window_postings(events, subject, window), key)
}

fn entry_in_window(entry: &ListeningEntry, latest: &ListeningEntry, window: Window) -> (inside:
    bool)
    ensures
        inside == in_window(entry@, latest@, window),
{
    match window {
        Window::Short => entry.timestamp.later_than_before(
            &latest.timestamp,
            SHORT_WINDOW_SECONDS,
        ),
        Window::Medium => entry.timestamp.later_than_before(
            &latest.timestamp,
            MEDIUM_WINDOW_SECONDS,
        ),
        Window::Lifetime => true,
    }
}

/// Counts the play time of each artist, or of each track, over a window.
pub fn window_tally(entries: &Vec<ListeningEntry>, subject: Subject, window: Window) -> (tally:
    Tally)
    ensures
        tallies(&tally, window_postings(entry_views(entries@), subject, window)),
{
    let mut tally = Tally::new();
    let ghost events = entry_views(entries@);
    let n = entries.len();
    if n == 0 {
        assert(tally.values() =~= tally_totals(Seq::<Posting>::empty()));
        return tally;
    }
    let latest = &entries[n - 1];
    let mut i: usize = 0;
    assert(events.take(0) =~= Seq::<EntryView>::empty());
    assert(tally.values() =~= tally_totals(Seq::<Posting>::empty()));
    while i < n
        invariant
            i <= n,
            n == entries@.len(),
            events == entry_views(entries@),
            latest@ == events.last(),
            tallies(&tally, postings_until(events.take(i as int), subject, window, latest@)),
        decreases n - i,
    {
        let entry = &entries[i];
        proof {
            assert(events.take(i + 1).drop_last() =~= events.take(i as int));
            assert(events.take(i + 1).last() == entry@);
        }
        if entry_in_window(entry, latest, window) {
            let key = subject_key_of(entry, subject);
            post(
                &mut tally,
                key.as_str(),
                entry.ms_played,
                Ghost(postings_until(events.take(i as int), subject, window, latest@)),
            );
        }
        i += 1;
    }
    assert(events.take(n as int) =~= events);
    tally
}

/// The three rankings of one subject: over the short window, the medium
/// window, and by the totals that the caller supplies for the whole log.
fn calculate_top(entries: &Vec<ListeningEntry>, play_counts: &Tally, subject: Subject) -> (top: (
    Vec<String>,
    Vec<String>,
    Vec<String>,
))
    requires
        play_counts.wf(),
    ensures
        rankings_of(top, entry_views(entries@), play_counts, subject),
{
    let short_counts = window_tally(entries, subject, Window::Short);
    let medium_counts = window_tally(entries, subject, Window::Medium);
    let top_short = get_top_n(&short_counts, RANKING_LEN);
    let top_medium = get_top_n(&medium_counts, RANKING_LEN);
    let top_long = get_top_n(play_counts, RANKING_LEN);
    (top_short, top_medium, top_long)
}

/// Whether `top` holds the rankings of `subject` for `events`: the best fifty
/// keys of the short window, of the medium window, and of `play_counts`.
pub open spec fn rankings_of(
    top: (Vec<String>, Vec<String>, Vec<String>),
    events: Seq<EntryView>,
    play_counts: &Tally,
    subject: Subject,
) -> bool {
    &&& is_ranking(
        text_views(top.0@),
        tally_keys(window_postings(events, subject, Window::Short)),
        tally_totals(window_postings(events, subject, Window::Short)),
        RANKING_LEN as nat,
    )
    &&& is_ranking(
        text_views(top.1@),
        tally_keys(window_postings(events, subject, Window::Medium)),
        tally_totals(window_postings(events, subject, Window::Medium)),
        RANKING_LEN as nat,
    )
    &&& is_ranking(
        text_views(top.2@),
        play_counts.keys(),
        play_counts.values(),
        RANKING_LEN as nat,
    )
}

/// Ranks the artists of a log: the best fifty of the last four weeks, of the
/// last 180 days, and by the totals given for the whole log.
pub fn calculate_top_artists(entries: &Vec<ListeningEntry>, artist_play_counts: &Tally) -> (top: (
    Vec<String>,
    Vec<String>,
    Vec<String>,
))
    requires
        artist_play_counts.wf(),
    ensures
        rankings_of(top, entry_views(entries@), artist_play_counts, Subject::Artist),
{
    calculate_top(entries, artist_play_counts, Subject::Artist)
}

/// Ranks the tracks of a log: the best fifty of the last four weeks, of the
/// last 180 days, and by the totals given for the whole log.
pub fn calculate_top_tracks(entries: &Vec<ListeningEntry>, track_play_counts: &Tally) -> (top: (
    Vec<String>,
    Vec<String>,
    Vec<String>,
))
    requires
        track_play_counts.wf(),
    ensures
        rankings_of(top, entry_views(entries@), track_play_counts, Subject::Track),
{
    calculate_top(entries, track_play_counts, Subject::Track)
}

// ---------------------------------------------------------------------
// Wider windows count more
// ---------------------------------------------------------------------

proof fn lemma_window_sums(events: Seq<EntryView>, subject: Subject, latest: EntryView, key: Seq<char>)
    ensures
        sum_for(postings_until(events, subject, Window::Short, latest), key) <= sum_for(
            postings_until(events, subject, Window::Medium, latest),
            key,
        ),
        sum_for(postings_until(events, subject, Window::Medium, latest), key) <= sum_for(
            postings_until(events, subject, Window::Lifetime, latest),
            key,
        ),
    decreases events.len(),
{
    if events.len() > 0 {
        let front = events.drop_last();
        lemma_window_sums(front, subject, latest, key);
        let next = Posting { key: subject_key(events.last(), subject), amount: events.last().ms_played };
        let short = postings_until(front, subject, Window::Short, latest);
        let medium = postings_until(front, subject, Window::Medium, latest);
        let all = postings_until(front, subject, Window::Lifetime, latest);
        assert(short.push(next).drop_last() =~= short);
        assert(medium.push(next).drop_last() =~= medium);
        assert(all.push(next).drop_last() =~= all);
    }
}

/// No window counts more for a key than a wider one: the short window at most
/// what the medium window counts, the medium window at most what the whole
/// log counts.
pub proof fn lemma_window_monotone(events: Seq<EntryView>, subject: Subject, key: Seq<char>)
    ensures
        window_total(events, subject, Window::Short, key) <= window_total(
            events,
            subject,
            Window::Medium,
            key,
        ),
        window_total(events, subject, Window::Medium, key) <= window_total(
            events,
            subject,
            Window::Lifetime,
            key,
        ),
{
    if events.len() > 0 {
        lemma_window_sums(events, subject, events.last(), key);
    }
}

} // verus!
