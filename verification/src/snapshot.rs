//! The snapshot of a log: everything derived from it, assembled in one piece
//! and published as a whole.

use crate::counts::{posting_keys, tally_keys, tally_totals, Posting};
use crate::accumulators::{accumulate, normalize_into, Accumulators};
use crate::directory::{
    artist_directory_of, build_artists, build_tracks, lemma_artist_directory, tracks_of, Artist,
    Track,
};
use crate::entry::{
    entry_views, normalized, record_views, CsvRecord, EntryView, ListeningEntry, RecordView,
    RowField,
};
use crate::genre_history::{
    bucket_views, calculate_genre_history, genre_series, is_event_day,
    lemma_genre_series_ascending, lemma_genre_series_starts, lemma_genre_series_tags,
    tagged_within, GenreBucket, BUCKET_SECONDS,
};
use crate::ranking::{is_ranking, lemma_ranking_unique};
use crate::relationships::{
    calculate_artist_relationships, partner_weights, partners, relationships_of, RELATED_LEN,
};
use crate::table::KeyedTable;
use crate::sorting::{
    is_stable_sort, lemma_lifetime_total_sorted, lemma_sorted_seconds_ascend,
    lemma_stable_sort_unique, sort_by_time,
};
use crate::text::text_views;
use crate::time::Timestamp;
use crate::timeline::{calculate_first_seen, first_seen_of};
use crate::windows::{
    calculate_top_artists, calculate_top_tracks, lemma_window_monotone, subject_keys,
    window_postings, window_total, Subject, Window, RANKING_LEN,
};
use std::sync::Arc;
use vstd::prelude::*;

verus! {

/// A row of the log could not be read.
#[derive(Clone, Copy, Debug, PartialEq, Eq, Structural)]
pub struct MalformedRow {
    /// The position of the row, counted from zero.
    pub row: usize,
    /// The field that could not be read.
    pub field: RowField,
}

/// A snapshot was asked for before any was published.
#[derive(Clone, Copy, Debug, PartialEq, Eq, Structural)]
pub struct SnapshotNotReady;

/// Everything derived from one log.
#[derive(Clone, Debug)]
pub struct CsvData {
    /// The events, in ascending order of time.
    pub entries: Vec<ListeningEntry>,
    /// The artist directory.
    pub artists: KeyedTable<Artist>,
    /// The track directory.
    pub tracks: KeyedTable<Track>,
    /// The best artists of the last four weeks.
    pub top_artists_short: Vec<String>,
    /// The best artists of the last 180 days.
    pub top_artists_medium: Vec<String>,
    /// The best artists of the whole log.
    pub top_artists_long: Vec<String>,
    /// The best tracks of the last four weeks.
    pub top_tracks_short: Vec<String>,
    /// The best tracks of the last 180 days.
    pub top_tracks_medium: Vec<String>,
    /// The best tracks of the whole log.
    pub top_tracks_long: Vec<String>,
    /// When each artist was first seen.
    pub artist_first_seen: KeyedTable<Timestamp>,
    /// When each track was first seen.
    pub track_first_seen: KeyedTable<Timestamp>,
    /// The genre trend.
    pub genre_history: Vec<GenreBucket>,
    /// The artist relationship graph.
    pub artist_relationships: KeyedTable<Vec<String>>,
}

// ---------------------------------------------------------------------
// Reading all rows
// ---------------------------------------------------------------------

/// Whether every row can be read.
pub open spec fn all_readable(rows: Seq<RecordView>) -> bool {
    forall|i: int| 0 <= i < rows.len() ==> normalized(#[trigger] rows[i]) is Ok
}

/// The events that the rows stand for, in the order of the rows.
pub open spec fn normalized_events(rows: Seq<RecordView>) -> Seq<EntryView> {
    Seq::new(rows.len(), |i: int| normalized(rows[i])->Ok_0)
}

/// Reads every row and counts its event, stopping at the first row that
/// cannot be read.
pub fn normalize_rows(rows: &Vec<CsvRecord>) -> (outcome: Result<
    (Vec<ListeningEntry>, Accumulators),
    MalformedRow,
>)
    ensures
        match outcome {
            Ok((entries, totals)) => {
                &&& all_readable(record_views(rows@))
                &&& entry_views(entries@) == normalized_events(record_views(rows@))
                &&& totals.wf()
                &&& totals.seen() == entry_views(entries@)
            },
            Err(e) => {
                &&& e.row < rows@.len()
                &&& normalized(rows@[e.row as int]@) == Err::<EntryView, RowField>(e.field)
                &&& forall|i: int| 0 <= i < e.row ==> normalized((#[trigger] rows@[i])@) is Ok
            },
        },
{
    let mut entries: Vec<ListeningEntry> = Vec::new();
    let mut totals = Accumulators::new();
    let mut i: usize = 0;
    let ghost views = record_views(rows@);
    assert(entry_views(entries@) =~= Seq::<EntryView>::empty());
    while i < rows.len()
        invariant
            i <= rows@.len(),
            views == record_views(rows@),
            entries@.len() == i,
            totals.wf(),
            totals.seen() == entry_views(entries@),
            forall|k: int| 0 <= k < i ==> normalized(#[trigger] views[k]) == Ok::<
                EntryView,
                RowField,
            >(entries@[k]@),
        decreases rows@.len() - i,
    {
        let ghost before = entry_views(entries@);
        match normalize_into(&rows[i], &mut totals) {
            Ok(entry) => {
                entries.push(entry);
                assert(entry_views(entries@) =~= before.push(entry@));
            },
            Err(field) => {
                proof {
                    assert forall|k: int| 0 <= k < i implies normalized(
                        (#[trigger] rows@[k])@,
                    ) is Ok by {
                        assert(normalized(views[k]) is Ok);
                    }
                }
                return Err(MalformedRow { row: i, field });
            },
        }
        i += 1;
    }
    assert(entry_views(entries@) =~= normalized_events(views));
    Ok((entries, totals))
}

// ---------------------------------------------------------------------
// Assembling a snapshot
// ---------------------------------------------------------------------

/// Whether `top` ranks the best fifty keys of a window of `events`.
pub open spec fn ranks_window(
    top: &Vec<String>,
    events: Seq<EntryView>,
    subject: Subject,
    window: Window,
) -> bool {
    is_ranking(
        text_views(top@),
        tally_keys(window_postings(events, subject, window)),
        tally_totals(window_postings(events, subject, window)),
        RANKING_LEN as nat,
    )
}

/// Whether `data` is the snapshot of the events `log`, given in the order in
/// which they were read.
///
/// The events are held in ascending order of time, and the rankings of the
/// two shorter windows, the timelines, the genre trend and the relationship
/// graph are those of the events in that order. The directories and the
/// rankings of the whole log go by the order in which the events were read.
pub open spec fn snapshot_of(data: &CsvData, log: Seq<EntryView>) -> bool {
    let events = entry_views(data.entries@);
    &&& is_stable_sort(events, log)
    &&& artist_directory_of(&data.artists, log)
    &&& tracks_of(&data.tracks, log)
    &&& ranks_window(&data.top_artists_short, events, Subject::Artist, Window::Short)
    &&& ranks_window(&data.top_artists_medium, events, Subject::Artist, Window::Medium)
    &&& ranks_window(&data.top_artists_long, log, Subject::Artist, Window::Lifetime)
    &&& ranks_window(&data.top_tracks_short, events, Subject::Track, Window::Short)
    &&& ranks_window(&data.top_tracks_medium, events, Subject::Track, Window::Medium)
    &&& ranks_window(&data.top_tracks_long, log, Subject::Track, Window::Lifetime)
    &&& first_seen_of(&data.artist_first_seen, events, Subject::Artist)
    &&& first_seen_of(&data.track_first_seen, events, Subject::Track)
    &&& bucket_views(data.genre_history@) == genre_series(events)
    &&& forall|b: int|
        0 <= b < data.genre_history@.len() ==> (#[trigger] data.genre_history@[b]).weights.wf()
    &&& relationships_of(&data.artist_relationships, subject_keys(events, Subject::Artist))
}

/// Derives the snapshot of a log of events, given in the order in which they
/// were read together with what was counted of them.
fn assemble_counted(log: Vec<ListeningEntry>, totals: &Accumulators) -> (data: CsvData)
    requires
        totals.wf(),
        totals.seen() == entry_views(log@),
    ensures
        snapshot_of(&data, entry_views(log@)),
{
    let genres = totals.artist_genres_map();
    let artists = build_artists(&log, genres);
    let tracks = build_tracks(&log);
    proof {
        lemma_artist_directory(&artists, entry_views(log@), genres);
    }
    let mut entries = log;
    sort_by_time(&mut entries);
    let (top_artists_short, top_artists_medium, top_artists_long) = calculate_top_artists(
        &entries,
        totals.artist_play_counts(),
    );
    let (top_tracks_short, top_tracks_medium, top_tracks_long) = calculate_top_tracks(
        &entries,
        totals.track_play_counts(),
    );
    let (artist_first_seen, track_first_seen) = calculate_first_seen(&entries);
    let genre_history = calculate_genre_history(&entries);
    let artist_relationships = calculate_artist_relationships(&entries);
    CsvData {
        entries,
        artists,
        tracks,
        top_artists_short,
        top_artists_medium,
        top_artists_long,
        top_tracks_short,
        top_tracks_medium,
        top_tracks_long,
        artist_first_seen,
        track_first_seen,
        genre_history,
        artist_relationships,
    }
}

/// Derives the snapshot of a log of events, given in the order in which they
/// were read.
pub fn assemble(log: Vec<ListeningEntry>) -> (data: CsvData)
    ensures
        snapshot_of(&data, entry_views(log@)),
{
    let totals = accumulate(&log);
    assemble_counted(log, &totals)
}

/// Reads the rows of a log and derives its snapshot. Fails on the first row
/// that cannot be read.
pub fn build_snapshot(rows: &Vec<CsvRecord>) -> (outcome: Result<CsvData, MalformedRow>)
    ensures
        match outcome {
            Ok(data) => all_readable(record_views(rows@)) && snapshot_of(
                &data,
                normalized_events(record_views(rows@)),
            ),
            Err(e) => {
                &&& e.row < rows@.len()
                &&& normalized(rows@[e.row as int]@) == Err::<EntryView, RowField>(e.field)
                &&& forall|i: int| 0 <= i < e.row ==> normalized((#[trigger] rows@[i])@) is Ok
            },
        },
{
    match normalize_rows(rows) {
        Ok((log, totals)) => Ok(assemble_counted(log, &totals)),
        Err(e) => Err(e),
    }
}

// ---------------------------------------------------------------------
// The store
// ---------------------------------------------------------------------

/// Calls `Arc::clone`. Trusted: the new handle shares the value of the old.
#[verifier::external_body]
fn share(handle: &Arc<CsvData>) -> (shared: Arc<CsvData>)
    ensures
        shared == *handle,
{
    Arc::clone(handle)
}

/// The place of the published snapshot. A store starts empty; every
/// publication replaces the snapshot as a whole, and readers hold on to the
/// one they were given.
pub struct CsvStore {
    current: Option<Arc<CsvData>>,
}

impl CsvStore {
    /// The snapshot that is published, if any.
    pub closed spec fn published(&self) -> Option<Arc<CsvData>> {
        self.current
    }

    /// A store with nothing published.
    pub fn new() -> (store: CsvStore)
        ensures
            store.published() is None,
    {
        CsvStore { current: None }
    }

    /// Publishes `data` in place of what was published before.
    pub fn publish(&mut self, data: CsvData)
        ensures
            final(self).published() matches Some(held) && *held == data,
    {
        self.current = Some(Arc::new(data));
    }

    /// A handle to the published snapshot, if there is one.
    pub fn current(&self) -> (handle: Option<Arc<CsvData>>)
        ensures
            handle == self.published(),
    {
        match &self.current {
            Some(held) => Some(share(held)),
            None => None,
        }
    }

    /// A handle to the published snapshot, or the word that none is ready.
    pub fn snapshot(&self) -> (outcome: Result<Arc<CsvData>, SnapshotNotReady>)
        ensures
            match outcome {
                Ok(handle) => self.published() == Some(handle),
                Err(_) => self.published() is None,
            },
    {
        match self.current() {
            Some(handle) => Ok(handle),
            None => Err(SnapshotNotReady),
        }
    }
}

/// Reads the rows of a log, derives its snapshot and publishes it. Where a
/// row cannot be read nothing is published, and what was published before
/// stays.
pub fn load_csv_data(store: &mut CsvStore, rows: &Vec<CsvRecord>) -> (outcome: Result<
    (),
    MalformedRow,
>)
    ensures
        match outcome {
            Ok(_) => {
                &&& all_readable(record_views(rows@))
                &&& final(store).published() matches Some(held) && snapshot_of(
                    &*held,
                    normalized_events(record_views(rows@)),
                )
            },
            Err(e) => {
                &&& final(store).published() == old(store).published()
                &&& e.row < rows@.len()
                &&& normalized(rows@[e.row as int]@) == Err::<EntryView, RowField>(e.field)
                &&& forall|i: int| 0 <= i < e.row ==> normalized((#[trigger] rows@[i])@) is Ok
            },
        },
{
    match build_snapshot(rows) {
        Ok(data) => {
            store.publish(data);
            Ok(())
        },
        Err(e) => Err(e),
    }
}

/// A handle to the snapshot that was loaded last, if any.
pub fn get_csv_data(store: &CsvStore) -> (data: Option<Arc<CsvData>>)
    ensures
        data == store.published(),
{
    store.current()
}

// ---------------------------------------------------------------------
// What holds of every snapshot
// ---------------------------------------------------------------------

/// A log determines its snapshot: two snapshots of one log hold the same
/// events in the same order, the same rankings with the same order among
/// equal totals, the same genre trend, and the same artists in the
/// relationship graph with the same related artists.
pub proof fn lemma_snapshot_determined(first: &CsvData, second: &CsvData, log: Seq<EntryView>)
    requires
        snapshot_of(first, log),
        snapshot_of(second, log),
    ensures
        entry_views(first.entries@) == entry_views(second.entries@),
        text_views(first.top_artists_short@) == text_views(second.top_artists_short@),
        text_views(first.top_artists_medium@) == text_views(second.top_artists_medium@),
        text_views(first.top_artists_long@) == text_views(second.top_artists_long@),
        text_views(first.top_tracks_short@) == text_views(second.top_tracks_short@),
        text_views(first.top_tracks_medium@) == text_views(second.top_tracks_medium@),
        text_views(first.top_tracks_long@) == text_views(second.top_tracks_long@),
        first.artist_first_seen.keys() == second.artist_first_seen.keys(),
        first.track_first_seen.keys() == second.track_first_seen.keys(),
        bucket_views(first.genre_history@) == bucket_views(second.genre_history@),
        first.artist_relationships.keys() == second.artist_relationships.keys(),
        forall|j: int|
            0 <= j < first.artist_relationships.keys().len() ==> text_views(
                (#[trigger] first.artist_relationships.values()[j])@,
            ) == text_views(second.artist_relationships.values()[j]@),
{
    let events = entry_views(first.entries@);
    lemma_stable_sort_unique(events, entry_views(second.entries@), log);
    lemma_window_ranking_unique(
        &first.top_artists_short,
        &second.top_artists_short,
        events,
        Subject::Artist,
        Window::Short,
    );
    lemma_window_ranking_unique(
        &first.top_artists_medium,
        &second.top_artists_medium,
        events,
        Subject::Artist,
        Window::Medium,
    );
    lemma_window_ranking_unique(
        &first.top_artists_long,
        &second.top_artists_long,
        log,
        Subject::Artist,
        Window::Lifetime,
    );
    lemma_window_ranking_unique(
        &first.top_tracks_short,
        &second.top_tracks_short,
        events,
        Subject::Track,
        Window::Short,
    );
    lemma_window_ranking_unique(
        &first.top_tracks_medium,
        &second.top_tracks_medium,
        events,
        Subject::Track,
        Window::Medium,
    );
    lemma_window_ranking_unique(
        &first.top_tracks_long,
        &second.top_tracks_long,
        log,
        Subject::Track,
        Window::Lifetime,
    );
    let keys = subject_keys(events, Subject::Artist);
    assert forall|j: int| 0 <= j < first.artist_relationships.keys().len() implies text_views(
        (#[trigger] first.artist_relationships.values()[j])@,
    ) == text_views(second.artist_relationships.values()[j]@) by {
        let artist = first.artist_relationships.keys()[j];
        lemma_ranking_unique(
            text_views(first.artist_relationships.values()[j]@),
            text_views(second.artist_relationships.values()[j]@),
            partners(keys, artist),
            partner_weights(keys, artist),
            RELATED_LEN as nat,
        );
    }
}

proof fn lemma_window_ranking_unique(
    first: &Vec<String>,
    second: &Vec<String>,
    events: Seq<EntryView>,
    subject: Subject,
    window: Window,
)
    requires
        ranks_window(first, events, subject, window),
        ranks_window(second, events, subject, window),
    ensures
        text_views(first@) == text_views(second@),
{
    lemma_ranking_unique(
        text_views(first@),
        text_views(second@),
        tally_keys(window_postings(events, subject, window)),
        tally_totals(window_postings(events, subject, window)),
        RANKING_LEN as nat,
    );
}

/// In a snapshot no window counts more for a key than a wider one: the last
/// four weeks at most what the last 180 days count, and those at most what
/// was counted of the whole log while it was read.
pub proof fn lemma_snapshot_windows(
    data: &CsvData,
    log: Seq<EntryView>,
    subject: Subject,
    key: Seq<char>,
)
    requires
        snapshot_of(data, log),
    ensures
        window_total(entry_views(data.entries@), subject, Window::Short, key) <= window_total(
            entry_views(data.entries@),
            subject,
            Window::Medium,
            key,
        ),
        window_total(entry_views(data.entries@), subject, Window::Medium, key) <= window_total(
            log,
            subject,
            Window::Lifetime,
            key,
        ),
{
    let events = entry_views(data.entries@);
    lemma_window_monotone(events, subject, key);
    lemma_lifetime_total_sorted(events, log, subject, key);
}

/// The genre trend of a snapshot stands in order of time: every bucket
/// starts at midnight of the day of one of the events and more than thirty
/// days after the start of the bucket before it, none is empty, and each
/// holds only tags of events whose day lies from its start to the thirtieth
/// day after it.
pub proof fn lemma_snapshot_genre_trend(data: &CsvData, log: Seq<EntryView>)
    requires
        snapshot_of(data, log),
    ensures
        forall|b: int|
            0 <= b < data.genre_history@.len() ==> {
                &&& (#[trigger] data.genre_history@[b]).start.nanos() == 0
                &&& is_event_day(entry_views(data.entries@), data.genre_history@[b].start.secs())
                &&& data.genre_history@[b].weights.keys().len() > 0
            },
        forall|a: int, b: int|
            0 <= a < b < data.genre_history@.len() ==> (
            #[trigger] data.genre_history@[a]).start.secs() + BUCKET_SECONDS < (
            #[trigger] data.genre_history@[b]).start.secs(),
        forall|b: int, g: int|
            0 <= b < data.genre_history@.len() && 0 <= g
                < data.genre_history@[b].weights.keys().len() ==> tagged_within(
                entry_views(data.entries@),
                data.genre_history@[b].start.secs(),
                #[trigger] data.genre_history@[b].weights.keys()[g],
            ),
{
    let events = entry_views(data.entries@);
    let series = genre_series(events);
    lemma_sorted_seconds_ascend(events, log);
    lemma_genre_series_starts(events);
    lemma_genre_series_ascending(events);
    lemma_genre_series_tags(events);
    assert forall|b: int| 0 <= b < data.genre_history@.len() implies (
    #[trigger] data.genre_history@[b])@ == series[b] by {
        assert(bucket_views(data.genre_history@)[b] == data.genre_history@[b]@);
    }
    assert forall|a: int, b: int| 0 <= a < b < data.genre_history@.len() implies (
    #[trigger] data.genre_history@[a]).start.secs() + BUCKET_SECONDS < (
    #[trigger] data.genre_history@[b]).start.secs() by {
        assert(data.genre_history@[a]@ == series[a]);
        assert(data.genre_history@[b]@ == series[b]);
    }
    assert forall|b: int, g: int|
        0 <= b < data.genre_history@.len() && 0 <= g
            < data.genre_history@[b].weights.keys().len() implies tagged_within(
        events,
        data.genre_history@[b].start.secs(),
        #[trigger] data.genre_history@[b].weights.keys()[g],
    ) by {
        assert(data.genre_history@[b]@ == series[b]);
        assert(series[b].genres[g] == data.genre_history@[b].weights.keys()[g]);
    }
}

/// No ranking of a snapshot has more than fifty entries, and no artist is
/// related to more than twenty.
pub proof fn lemma_snapshot_caps(data: &CsvData, log: Seq<EntryView>)
    requires
        snapshot_of(data, log),
    ensures
        data.top_artists_short@.len() <= RANKING_LEN,
        data.top_artists_medium@.len() <= RANKING_LEN,
        data.top_artists_long@.len() <= RANKING_LEN,
        data.top_tracks_short@.len() <= RANKING_LEN,
        data.top_tracks_medium@.len() <= RANKING_LEN,
        data.top_tracks_long@.len() <= RANKING_LEN,
        forall|j: int|
            0 <= j < data.artist_relationships.values().len() ==> (
            #[trigger] data.artist_relationships.values()[j])@.len() <= RELATED_LEN,
{
    assert(text_views(data.top_artists_short@).len() == data.top_artists_short@.len());
    assert(text_views(data.top_artists_medium@).len() == data.top_artists_medium@.len());
    assert(text_views(data.top_artists_long@).len() == data.top_artists_long@.len());
    assert(text_views(data.top_tracks_short@).len() == data.top_tracks_short@.len());
    assert(text_views(data.top_tracks_medium@).len() == data.top_tracks_medium@.len());
    assert(text_views(data.top_tracks_long@).len() == data.top_tracks_long@.len());
    assert forall|j: int| 0 <= j < data.artist_relationships.values().len() implies (
    #[trigger] data.artist_relationships.values()[j])@.len() <= RELATED_LEN by {
        assert(text_views(data.artist_relationships.values()[j]@).len()
            == data.artist_relationships.values()[j]@.len());
    }
}

/// The snapshot of the empty log is empty: no events, no records, no
/// ranking entries, no buckets, no first appearances, no relationships.
pub proof fn lemma_empty_snapshot(data: &CsvData)
    requires
        snapshot_of(data, Seq::<EntryView>::empty()),
    ensures
        data.entries@.len() == 0,
        data.artists.keys().len() == 0,
        data.tracks.keys().len() == 0,
        data.top_artists_short@.len() == 0,
        data.top_artists_medium@.len() == 0,
        data.top_artists_long@.len() == 0,
        data.top_tracks_short@.len() == 0,
        data.top_tracks_medium@.len() == 0,
        data.top_tracks_long@.len() == 0,
        data.artist_first_seen.keys().len() == 0,
        data.track_first_seen.keys().len() == 0,
        data.genre_history@.len() == 0,
        data.artist_relationships.keys().len() == 0,
{
    let events = entry_views(data.entries@);
    assert(events.len() == 0);
    assert(events =~= Seq::<EntryView>::empty());
    assert(subject_keys(events, Subject::Artist) =~= Seq::<Seq<char>>::empty());
    assert(subject_keys(events, Subject::Track) =~= Seq::<Seq<char>>::empty());
    assert(text_views(data.top_artists_short@).len() == data.top_artists_short@.len());
    assert(text_views(data.top_artists_medium@).len() == data.top_artists_medium@.len());
    assert(text_views(data.top_artists_long@).len() == data.top_artists_long@.len());
    assert(text_views(data.top_tracks_short@).len() == data.top_tracks_short@.len());
    assert(text_views(data.top_tracks_medium@).len() == data.top_tracks_medium@.len());
    assert(text_views(data.top_tracks_long@).len() == data.top_tracks_long@.len());
    assert(posting_keys(Seq::<Posting>::empty()) =~= Seq::<Seq<char>>::empty());
    assert(bucket_views(data.genre_history@).len() == data.genre_history@.len());
}

} // verus!
