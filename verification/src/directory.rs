//! The directories of a log: one record for each artist and one for each
//! track, under their identity keys.

use crate::accumulators::latest_genres_of;
use crate::counts::distinct;
use crate::entry::{entry_views, EntryView, ListeningEntry};
use crate::keys::{identity_key, identity_key_of};
use crate::table::KeyedTable;
use crate::text::{clone_texts, text_views};
use crate::timeline::{first_of, index_subjects, last_of, lemma_spans_in_range, spans_of};
use crate::windows::{subject_keys, Subject};
use vstd::prelude::*;

verus! {

/// The popularity given to every artist of a log, which tells none.
pub const DEFAULT_POPULARITY: u8 = 50;

/// An artist of the log.
#[derive(Clone, Debug)]
pub struct Artist {
    /// The identity key.
    pub id: String,
    /// The display name, as the first event of the artist gives it.
    pub name: String,
    /// The genre tags last seen for the artist, if any were recorded.
    pub genres: Option<Vec<String>>,
    /// A placeholder for the popularity.
    pub popularity: Option<u8>,
}

/// A track of the log.
#[derive(Clone, Debug)]
pub struct Track {
    /// The identity key.
    pub id: String,
    /// The display name of the track, as its first event gives it.
    pub name: String,
    /// The identity key of the artist of that event.
    pub artist_id: String,
    /// The display name of the artist of that event.
    pub artist_name: String,
}

/// An artist record as plain values.
pub struct ArtistView {
    pub id: Seq<char>,
    pub name: Seq<char>,
    pub genres: Option<Seq<Seq<char>>>,
    pub popularity: Option<u8>,
}

/// A track record as plain values.
pub struct TrackView {
    pub id: Seq<char>,
    pub name: Seq<char>,
    pub artist_id: Seq<char>,
    pub artist_name: Seq<char>,
}

impl View for Artist {
    type V = ArtistView;

    open spec fn view(&self) -> ArtistView {
        ArtistView {
            id: self.id@,
            name: self.name@,
            genres: match self.genres {
                Some(tags) => Some(text_views(tags@)),
                None => None,
            },
            popularity: self.popularity,
        }
    }
}

impl View for Track {
    type V = TrackView;

    open spec fn view(&self) -> TrackView {
        TrackView {
            id: self.id@,
            name: self.name@,
            artist_id: self.artist_id@,
            artist_name: self.artist_name@,
        }
    }
}

/// The genre tags recorded for `key`, if any.
pub open spec fn recorded_genres(genres: &KeyedTable<Vec<String>>, key: Seq<char>) -> Option<
    Seq<Seq<char>>,
> {
    match genres.lookup(key) {
        Some(tags) => Some(text_views(tags@)),
        None => None,
    }
}

/// Whether `artists` is the artist directory of the log: one record for each
/// artist in the order of their first events, with the name that the first
/// event gives and the genre tags recorded in `genres`.
pub open spec fn artists_of(
    artists: &KeyedTable<Artist>,
    events: Seq<EntryView>,
    genres: &KeyedTable<Vec<String>>,
) -> bool {
    &&& artists.wf()
    &&& artists.keys() == distinct(subject_keys(events, Subject::Artist))
    &&& artists.values().len() == artists.keys().len()
    &&& forall|j: int|
        0 <= j < artists.keys().len() ==> (#[trigger] artists.values()[j])@ == (ArtistView {
            id: artists.keys()[j],
            name: events[first_of(
                subject_keys(events, Subject::Artist),
                artists.keys()[j],
            )].artist_name,
            genres: recorded_genres(genres, artists.keys()[j]),
            popularity: Some(DEFAULT_POPULARITY),
        })
}

/// The artist directory of a log.
pub fn build_artists(
    entries: &Vec<ListeningEntry>,
    artist_genres_map: &KeyedTable<Vec<String>>,
) -> (artists: KeyedTable<Artist>)
    requires
        artist_genres_map.wf(),
    ensures
        artists_of(&artists, entry_views(entries@), artist_genres_map),
{
    let spans = index_subjects(entries, Subject::Artist);
    let ghost events = entry_views(entries@);
    let ghost keys = subject_keys(events, Subject::Artist);
    let mut artists: KeyedTable<Artist> = KeyedTable::new();
    let count = spans.len();
    let mut j: usize = 0;
    proof {
        spans.lemma_shape();
    }
    while j < count
        invariant
            j <= count,
            count == spans.keys().len(),
            spans_of(&spans, keys),
            spans.keys().no_duplicates(),
            events == entry_views(entries@),
            keys == subject_keys(events, Subject::Artist),
            artist_genres_map.wf(),
            artists.wf(),
            artists.keys() == spans.keys().take(j as int),
            artists.values().len() == j,
            forall|k: int|
                0 <= k < j ==> (#[trigger] artists.values()[k])@ == (ArtistView {
                    id: spans.keys()[k],
                    name: events[first_of(keys, spans.keys()[k])].artist_name,
                    genres: recorded_genres(artist_genres_map, spans.keys()[k]),
                    popularity: Some(DEFAULT_POPULARITY),
                }),
        decreases count - j,
    {
        let span = *spans.value(j);
        proof {
            lemma_spans_in_range(&spans, keys, j as int);
            if spans.keys().take(j as int).contains(spans.keys()[j as int]) {
                let k = choose|k: int|
                    0 <= k < j && spans.keys().take(j as int)[k] == spans.keys()[j as int];
                assert(spans.keys()[k] == spans.keys()[j as int]);
            }
        }
        let key = spans.key(j);
        let genres = match artist_genres_map.get(key.as_str()) {
            Some(tags) => Some(clone_texts(tags)),
            None => None,
        };
        let artist = Artist {
            id: key.clone(),
            name: entries[span.first].artist_name.clone(),
            genres,
            popularity: Some(DEFAULT_POPULARITY),
        };
        let ghost before = artists.values();
        artists.insert(key.clone(), artist);
        proof {
            assert(artists.keys() =~= spans.keys().take(j + 1));
            assert forall|k: int| 0 <= k < j + 1 implies (#[trigger] artists.values()[k])@ == (
            ArtistView {
                id: spans.keys()[k],
                name: events[first_of(keys, spans.keys()[k])].artist_name,
                genres: recorded_genres(artist_genres_map, spans.keys()[k]),
                popularity: Some(DEFAULT_POPULARITY),
            }) by {
                if k < j {
                    assert(artists.values()[k] == before[k]);
                }
            }
        }
        j += 1;
    }
    assert(spans.keys().take(count as int) =~= spans.keys());
    artists
}

/// Whether `tracks` is the track directory of the log: one record for each
/// track in the order of their first events, with the names that the first
/// event gives.
pub open spec fn tracks_of(tracks: &KeyedTable<Track>, events: Seq<EntryView>) -> bool {
    &&& tracks.wf()
    &&& tracks.keys() == distinct(subject_keys(events, Subject::Track))
    &&& tracks.values().len() == tracks.keys().len()
    &&& forall|j: int|
        0 <= j < tracks.keys().len() ==> {
            let first = events[first_of(subject_keys(events, Subject::Track), tracks.keys()[j])];
            (#[trigger] tracks.values()[j])@ == (TrackView {
                id: tracks.keys()[j],
                name: first.track_name,
                artist_id: identity_key(first.artist_name),
                artist_name: first.artist_name,
            })
        }
}

/// The track directory of a log.
pub fn build_tracks(entries: &Vec<ListeningEntry>) -> (tracks: KeyedTable<Track>)
    ensures
        tracks_of(&tracks, entry_views(entries@)),
{
    let spans = index_subjects(entries, Subject::Track);
    let ghost events = entry_views(entries@);
    let ghost keys = subject_keys(events, Subject::Track);
    let mut tracks: KeyedTable<Track> = KeyedTable::new();
    let count = spans.len();
    let mut j: usize = 0;
    proof {
        spans.lemma_shape();
    }
    while j < count
        invariant
            j <= count,
            count == spans.keys().len(),
            spans_of(&spans, keys),
            spans.keys().no_duplicates(),
            events == entry_views(entries@),
            keys == subject_keys(events, Subject::Track),
            tracks.wf(),
            tracks.keys() == spans.keys().take(j as int),
            tracks.values().len() == j,
            forall|k: int|
                0 <= k < j ==> {
                    let first = events[first_of(keys, spans.keys()[k])];
                    (#[trigger] tracks.values()[k])@ == (TrackView {
                        id: spans.keys()[k],
                        name: first.track_name,
                        artist_id: identity_key(first.artist_name),
                        artist_name: first.artist_name,
                    })
                },
        decreases count - j,
    {
        let span = *spans.value(j);
        proof {
            lemma_spans_in_range(&spans, keys, j as int);
            if spans.keys().take(j as int).contains(spans.keys()[j as int]) {
                let k = choose|k: int|
                    0 <= k < j && spans.keys().take(j as int)[k] == spans.keys()[j as int];
                assert(spans.keys()[k] == spans.keys()[j as int]);
            }
        }
        let entry = &entries[span.first];
        let key = spans.key(j);
        let track = Track {
            id: key.clone(),
            name: entry.track_name.clone(),
            artist_id: identity_key_of(entry.artist_name.as_str()),
            artist_name: entry.artist_name.clone(),
        };
        let ghost before = tracks.values();
        tracks.insert(key.clone(), track);
        proof {
            assert(tracks.keys() =~= spans.keys().take(j + 1));
            assert forall|k: int| 0 <= k < j + 1 implies {
                let first = events[first_of(keys, spans.keys()[k])];
                (#[trigger] tracks.values()[k])@ == (TrackView {
                    id: spans.keys()[k],
                    name: first.track_name,
                    artist_id: identity_key(first.artist_name),
                    artist_name: first.artist_name,
                })
            } by {
                if k < j {
                    assert(tracks.values()[k] == before[k]);
                }
            }
        }
        j += 1;
    }
    assert(spans.keys().take(count as int) =~= spans.keys());
    tracks
}

/// Whether `artists` is the artist directory of the log with the genre tags
/// that the log itself records: for each artist those of its last event.
pub open spec fn artist_directory_of(artists: &KeyedTable<Artist>, events: Seq<EntryView>) -> bool {
    &&& artists.wf()
    &&& artists.keys() == distinct(subject_keys(events, Subject::Artist))
    &&& artists.values().len() == artists.keys().len()
    &&& forall|j: int|
        0 <= j < artists.keys().len() ==> (#[trigger] artists.values()[j])@ == (ArtistView {
            id: artists.keys()[j],
            name: events[first_of(
                subject_keys(events, Subject::Artist),
                artists.keys()[j],
            )].artist_name,
            genres: Some(
                events[last_of(subject_keys(events, Subject::Artist), artists.keys()[j])].genres,
            ),
            popularity: Some(DEFAULT_POPULARITY),
        })
}

/// A directory built with the genre tags last seen for each artist records,
/// for every artist, the tags of its last event.
pub proof fn lemma_artist_directory(
    artists: &KeyedTable<Artist>,
    events: Seq<EntryView>,
    genres: &KeyedTable<Vec<String>>,
)
    requires
        artists_of(artists, events, genres),
        latest_genres_of(genres, events),
    ensures
        artist_directory_of(artists, events),
{
    assert forall|j: int| 0 <= j < artists.keys().len() implies recorded_genres(
        genres,
        artists.keys()[j],
    ) == Some(
        events[last_of(subject_keys(events, Subject::Artist), artists.keys()[j])].genres,
    ) by {
        genres.lemma_lookup(j);
    }
}

} // verus!
