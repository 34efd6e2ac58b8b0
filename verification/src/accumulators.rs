//! The accumulators that are kept while a log is read: the play time of each
//! artist and of each track, and the genre tags last seen for each artist.

use crate::counts::{distinct, new_tally, post, tallies, Posting};
use crate::entry::{
    entry_views, normalize_row, normalized, outcome_view, CsvRecord, EntryView, ListeningEntry,
    RowField,
};
use crate::table::{KeyedTable, Tally};
use crate::text::{clone_texts, text_views};
use crate::timeline::last_of;
use crate::windows::{
    postings_until, subject_key, subject_key_of, subject_keys, window_postings, Subject, Window,
};
use vstd::prelude::*;

verus! {

/// Whether `genres` records, for each artist of the log in the order of
/// their first events, the genre tags of the artist's last event.
pub open spec fn latest_genres_of(genres: &KeyedTable<Vec<String>>, events: Seq<EntryView>) -> bool {
    &&& genres.wf()
    &&& genres.keys() == distinct(subject_keys(events, Subject::Artist))
    &&& genres.values().len() == genres.keys().len()
    &&& forall|j: int|
        0 <= j < genres.keys().len() ==> text_views((#[trigger] genres.values()[j])@)
            == events[last_of(subject_keys(events, Subject::Artist), genres.keys()[j])].genres
}

/// What was counted of the events seen so far.
pub struct Accumulators {
    artist_play_counts: Tally,
    track_play_counts: Tally,
    artist_genres_map: KeyedTable<Vec<String>>,
    seen: Ghost<Seq<EntryView>>,
}

proof fn lemma_lifetime_postings(
    events: Seq<EntryView>,
    subject: Subject,
    one: EntryView,
    other: EntryView,
)
    ensures
        postings_until(events, subject, Window::Lifetime, one) == postings_until(
            events,
            subject,
            Window::Lifetime,
            other,
        ),
    decreases events.len(),
{
    if events.len() > 0 {
        lemma_lifetime_postings(events.drop_last(), subject, one, other);
    }
}

/// One more event adds one posting to those of the whole log.
pub proof fn lemma_lifetime_push(events: Seq<EntryView>, subject: Subject, next: EntryView)
    ensures
        window_postings(events.push(next), subject, Window::Lifetime) == window_postings(
            events,
            subject,
            Window::Lifetime,
        ).push(Posting { key: subject_key(next, subject), amount: next.ms_played }),
{
    let after = events.push(next);
    assert(after.drop_last() =~= events);
    assert(after.last() == next);
    assert(postings_until(after, subject, Window::Lifetime, next) == postings_until(
        events,
        subject,
        Window::Lifetime,
        next,
    ).push(Posting { key: subject_key(next, subject), amount: next.ms_played }));
    if events.len() > 0 {
        lemma_lifetime_postings(events, subject, next, events.last());
    }
}

impl Accumulators {
    /// The events that were counted, in the order in which they were seen.
    pub closed spec fn seen(&self) -> Seq<EntryView> {
        self.seen@
    }

    /// The accumulators hold what the events seen add up to.
    pub closed spec fn wf(&self) -> bool {
        &&& tallies(
            &self.artist_play_counts,
            window_postings(self.seen@, Subject::Artist, Window::Lifetime),
        )
        &&& tallies(
            &self.track_play_counts,
            window_postings(self.seen@, Subject::Track, Window::Lifetime),
        )
        &&& latest_genres_of(&self.artist_genres_map, self.seen@)
    }

    /// Accumulators that have seen nothing.
    pub fn new() -> (fresh: Accumulators)
        ensures
            fresh.wf(),
            fresh.seen() == Seq::<EntryView>::empty(),
    {
        let fresh = Accumulators {
            artist_play_counts: new_tally(),
            track_play_counts: new_tally(),
            artist_genres_map: KeyedTable::new(),
            seen: Ghost(Seq::empty()),
        };
        assert(subject_keys(Seq::<EntryView>::empty(), Subject::Artist) =~= Seq::<
            Seq<char>,
        >::empty());
        fresh
    }

    /// The play time of each artist.
    pub fn artist_play_counts(&self) -> (counts: &Tally)
        requires
            self.wf(),
        ensures
            tallies(counts, window_postings(self.seen(), Subject::Artist, Window::Lifetime)),
    {
        &self.artist_play_counts
    }

    /// The play time of each track.
    pub fn track_play_counts(&self) -> (counts: &Tally)
        requires
            self.wf(),
        ensures
            tallies(counts, window_postings(self.seen(), Subject::Track, Window::Lifetime)),
    {
        &self.track_play_counts
    }

    /// The genre tags last seen for each artist.
    pub fn artist_genres_map(&self) -> (genres: &KeyedTable<Vec<String>>)
        requires
            self.wf(),
        ensures
            latest_genres_of(genres, self.seen()),
    {
        &self.artist_genres_map
    }

    /// Counts one more event.
    pub fn record(&mut self, entry: &ListeningEntry)
        requires
            old(self).wf(),
        ensures
            final(self).wf(),
            final(self).seen() == old(self).seen().push(entry@),
    {
        let ghost seen = self.seen@;
        let ghost after = seen.push(entry@);
        let ghost keys = subject_keys(seen, Subject::Artist);
        let ghost new_keys = subject_keys(after, Subject::Artist);
        let artist = subject_key_of(entry, Subject::Artist);
        let track = subject_key_of(entry, Subject::Track);
        proof {
            lemma_lifetime_push(seen, Subject::Artist, entry@);
            lemma_lifetime_push(seen, Subject::Track, entry@);
            assert(new_keys.drop_last() =~= keys);
            assert(new_keys.last() == artist@);
            self.artist_genres_map.lemma_shape();
        }
        post(
            &mut self.artist_play_counts,
            artist.as_str(),
            entry.ms_played,
            Ghost(window_postings(seen, Subject::Artist, Window::Lifetime)),
        );
        post(
            &mut self.track_play_counts,
            track.as_str(),
            entry.ms_played,
            Ghost(window_postings(seen, Subject::Track, Window::Lifetime)),
        );
        let ghost old_keys = self.artist_genres_map.keys();
        let ghost old_values = self.artist_genres_map.values();
        let tags = clone_texts(&entry.genres);
        match self.artist_genres_map.position(artist.as_str()) {
            Some(slot) => {
                self.artist_genres_map.set(slot, tags);
                proof {
                    assert forall|j: int|
                        0 <= j < self.artist_genres_map.keys().len() implies text_views(
                        (#[trigger] self.artist_genres_map.values()[j])@,
                    ) == after[last_of(new_keys, self.artist_genres_map.keys()[j])].genres by {
                        if j != slot {
                            assert(old_keys[j] != old_keys[slot as int]);
                            assert(self.artist_genres_map.values()[j] == old_values[j]);
                            assert(after[last_of(keys, old_keys[j])] == seen[last_of(
                                keys,
                                old_keys[j],
                            )]) by {
                                crate::timeline::lemma_last_of(keys, old_keys[j]);
                                crate::counts::lemma_distinct(keys);
                                assert(distinct(keys).contains(old_keys[j]));
                            }
                        }
                    }
                }
            },
            None => {
                self.artist_genres_map.insert(artist, tags);
                proof {
                    assert forall|j: int|
                        0 <= j < self.artist_genres_map.keys().len() implies text_views(
                        (#[trigger] self.artist_genres_map.values()[j])@,
                    ) == after[last_of(new_keys, self.artist_genres_map.keys()[j])].genres by {
                        if j < old_keys.len() {
                            assert(old_keys.contains(old_keys[j]));
                            assert(self.artist_genres_map.values()[j] == old_values[j]);
                            assert(after[last_of(keys, old_keys[j])] == seen[last_of(
                                keys,
                                old_keys[j],
                            )]) by {
                                crate::timeline::lemma_last_of(keys, old_keys[j]);
                                crate::counts::lemma_distinct(keys);
                                assert(distinct(keys).contains(old_keys[j]));
                            }
                        }
                    }
                }
            },
        }
        self.seen = Ghost(after);
    }
}

/// Counts the events of a log, in the order given.
pub fn accumulate(entries: &Vec<ListeningEntry>) -> (totals: Accumulators)
    ensures
        totals.wf(),
        totals.seen() == entry_views(entries@),
{
    let mut totals = Accumulators::new();
    let mut i: usize = 0;
    let ghost events = entry_views(entries@);
    assert(events.take(0) =~= Seq::<EntryView>::empty());
    while i < entries.len()
        invariant
            i <= entries@.len(),
            events == entry_views(entries@),
            totals.wf(),
            totals.seen() == events.take(i as int),
        decreases entries@.len() - i,
    {
        totals.record(&entries[i]);
        assert(events.take(i + 1) =~= events.take(i as int).push(entries@[i as int]@));
        i += 1;
    }
    assert(events.take(entries@.len() as int) =~= events);
    totals
}

/// Reads one raw row into a play event and counts it. A row that cannot be
/// read leaves the accumulators as they were.
pub fn normalize_into(row: &CsvRecord, totals: &mut Accumulators) -> (outcome: Result<
    ListeningEntry,
    RowField,
>)
    requires
        old(totals).wf(),
    ensures
        outcome_view(outcome) == normalized(row@),
        final(totals).wf(),
        match outcome {
            Ok(entry) => final(totals).seen() == old(totals).seen().push(entry@),
            Err(_) => final(totals).seen() == old(totals).seen(),
        },
{
    match normalize_row(row) {
        Ok(entry) => {
            totals.record(&entry);
            Ok(entry)
        },
        Err(field) => Err(field),
    }
}

} // verus!
