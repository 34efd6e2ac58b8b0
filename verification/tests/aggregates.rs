use listening_stats::accumulators::{accumulate, normalize_into, Accumulators};
use listening_stats::directory::{build_artists, build_tracks};
use listening_stats::genre_history::calculate_genre_history;
use listening_stats::relationships::{
    calculate_artist_relationships, count_co_occurrences, RELATED_LEN, WINDOW_EVENTS,
};
use listening_stats::timeline::{calculate_first_seen, first_seen, index_subjects};
use listening_stats::windows::Subject;
use listening_stats::{KeyedTable, ListeningEntry, Timestamp};

const T0: i64 = 1_704_067_200;
const DAY: i64 = 86_400;

fn event(secs: i64, track: &str, artist: &str, ms: u64, genres: &[&str]) -> ListeningEntry {
    ListeningEntry {
        timestamp: Timestamp::from_parts(secs, 0).unwrap(),
        track_name: track.to_string(),
        artist_name: artist.to_string(),
        ms_played: ms,
        genres: genres.iter().map(|g| g.to_string()).collect(),
    }
}

fn three_events() -> Vec<ListeningEntry> {
    vec![
        event(T0, "Song A", "Artist X", 200_000, &["pop"]),
        event(T0 + DAY, "Song B", "Artist Y", 150_000, &["rock"]),
        event(T0 + 2 * DAY, "Song A", "Artist X", 200_000, &["pop"]),
    ]
}

fn keys_of<V>(table: &KeyedTable<V>) -> Vec<String> {
    (0..table.len()).map(|i| table.key(i).clone()).collect()
}

#[test]
fn artist_x_is_first_seen_at_its_first_event() {
    let (artists, tracks) = calculate_first_seen(&three_events());
    assert_eq!(keys_of(&artists), vec!["csv_artist_x", "csv_artist_y"]);
    assert_eq!(artists.get("csv_artist_x").unwrap().seconds(), T0);
    assert_eq!(artists.get("csv_artist_y").unwrap().seconds(), T0 + DAY);
    assert_eq!(keys_of(&tracks), vec!["csv_song_a_-_artist_x", "csv_song_b_-_artist_y"]);
    assert_eq!(tracks.get("csv_song_a_-_artist_x").unwrap().seconds(), T0);
}

#[test]
fn the_first_record_of_a_key_wins() {
    let events = vec![
        event(T0 + 5, "S", "artist x", 1, &[]),
        event(T0, "S", "Artist X", 1, &[]),
        event(T0 + 9, "S", "ARTIST X", 1, &[]),
    ];
    let seen = first_seen(&events, Subject::Artist);
    assert_eq!(seen.len(), 1);
    assert_eq!(seen.value(0).seconds(), T0 + 5);
    let spans = index_subjects(&events, Subject::Artist);
    assert_eq!(spans.value(0).first, 0);
    assert_eq!(spans.value(0).last, 2);
}

#[test]
fn an_empty_log_has_empty_aggregates() {
    let events: Vec<ListeningEntry> = Vec::new();
    let (artists, tracks) = calculate_first_seen(&events);
    assert_eq!(artists.len(), 0);
    assert_eq!(tracks.len(), 0);
    assert!(calculate_genre_history(&events).is_empty());
    assert_eq!(calculate_artist_relationships(&events).len(), 0);
    assert_eq!(build_artists(&events, accumulate(&events).artist_genres_map()).len(), 0);
    assert_eq!(build_tracks(&events).len(), 0);
    assert_eq!(count_co_occurrences(&events).weight("a", "b"), 0);
}

#[test]
fn genres_are_weighed_by_play_time() {
    let history = calculate_genre_history(&three_events());
    assert_eq!(history.len(), 1);
    assert_eq!(history[0].start.seconds(), T0);
    assert_eq!(history[0].start.subsec_nanos(), 0);
    assert_eq!(keys_of(&history[0].weights), vec!["pop", "rock"]);
    assert_eq!(history[0].weights.get("pop"), Some(&400_000));
    assert_eq!(history[0].weights.get("rock"), Some(&150_000));
}

#[test]
fn a_bucket_closes_after_more_than_thirty_days() {
    let noon = T0 + 12 * 3600;
    let events = vec![
        event(noon, "S", "A", 10, &["pop"]),
        event(noon + 30 * DAY + 3600, "S", "A", 20, &["pop", "rock"]),
        event(T0 + 31 * DAY + 5, "S", "A", 40, &["jazz"]),
        event(T0 + 61 * DAY, "S", "A", 80, &["jazz"]),
        event(T0 + 62 * DAY, "S", "A", 160, &["folk", "folk"]),
    ];
    let history = calculate_genre_history(&events);
    assert_eq!(history.len(), 3);
    assert_eq!(history[0].start.seconds(), T0);
    assert_eq!(history[0].weights.get("pop"), Some(&30));
    assert_eq!(history[0].weights.get("rock"), Some(&20));
    assert_eq!(history[0].weights.len(), 2);
    assert_eq!(history[1].start.seconds(), T0 + 31 * DAY);
    assert_eq!(history[1].weights.get("jazz"), Some(&120));
    assert_eq!(history[1].weights.len(), 1);
    assert_eq!(history[2].start.seconds(), T0 + 62 * DAY);
    assert_eq!(history[2].weights.get("folk"), Some(&320));
}

#[test]
fn a_bucket_without_tags_is_dropped() {
    let events = vec![
        event(T0, "S", "A", 10, &[]),
        event(T0 + 40 * DAY, "S", "A", 20, &["pop"]),
        event(T0 + 80 * DAY, "S", "A", 30, &[]),
    ];
    let history = calculate_genre_history(&events);
    assert_eq!(history.len(), 1);
    assert_eq!(history[0].start.seconds(), T0 + 40 * DAY);
    assert_eq!(history[0].weights.get("pop"), Some(&20));
    let untagged = vec![event(T0, "S", "A", 10, &[]), event(T0 + 50 * DAY, "S", "B", 1, &[])];
    assert!(calculate_genre_history(&untagged).is_empty());
}

#[test]
fn three_events_relate_artist_x_and_artist_y_once() {
    let events = three_events();
    let found = count_co_occurrences(&events);
    assert_eq!(found.weight("csv_artist_x", "csv_artist_y"), 1);
    assert_eq!(found.weight("csv_artist_y", "csv_artist_x"), 1);
    assert_eq!(found.weight("csv_artist_x", "csv_artist_x"), 0);
    assert_eq!(found.weight("csv_artist_x", "csv_nobody"), 0);
    let graph = calculate_artist_relationships(&events);
    assert_eq!(keys_of(&graph), vec!["csv_artist_x", "csv_artist_y"]);
    assert_eq!(graph.get("csv_artist_x").unwrap(), &vec!["csv_artist_y"]);
    assert_eq!(graph.get("csv_artist_y").unwrap(), &vec!["csv_artist_x"]);
}

#[test]
fn a_single_artist_has_no_relationships() {
    let one = vec![event(T0, "S", "A", 1, &[])];
    assert_eq!(calculate_artist_relationships(&one).len(), 0);
    let same = vec![event(T0, "S", "A", 1, &[]), event(T0 + 1, "T", "a", 1, &[])];
    assert_eq!(calculate_artist_relationships(&same).len(), 0);
}

#[test]
fn the_window_slides_over_fifty_events() {
    let mut events = Vec::new();
    events.push(event(T0, "S", "First", 1, &[]));
    for i in 1..51 {
        events.push(event(T0 + i, "S", "Filler", 1, &[]));
    }
    events.push(event(T0 + 51, "S", "Last", 1, &[]));
    assert_eq!(events.len(), 52);
    let found = count_co_occurrences(&events);
    assert_eq!(found.weight("csv_first", "csv_filler"), 1);
    assert_eq!(found.weight("csv_first", "csv_last"), 0);
    assert_eq!(found.weight("csv_filler", "csv_last"), 1);
    let graph = calculate_artist_relationships(&events);
    assert_eq!(keys_of(&graph), vec!["csv_first", "csv_filler", "csv_last"]);
    assert_eq!(graph.get("csv_filler").unwrap(), &vec!["csv_first", "csv_last"]);
    assert_eq!(graph.get("csv_first").unwrap(), &vec!["csv_filler"]);
}

#[test]
fn weights_count_the_windows_that_hold_both() {
    let mut events = Vec::new();
    for i in 0..100i64 {
        let artist = if i == 10 {
            "A"
        } else if i == 30 {
            "B"
        } else if i == 70 {
            "C"
        } else {
            "Filler"
        };
        events.push(event(T0 + i, "S", artist, 1, &[]));
    }
    assert_eq!(WINDOW_EVENTS, 50);
    let found = count_co_occurrences(&events);
    // windows start at 0..=50; A is in those starting at 0..=10, B in 0..=30, C in 21..=50
    assert_eq!(found.weight("csv_a", "csv_b"), 11);
    assert_eq!(found.weight("csv_b", "csv_c"), 10);
    assert_eq!(found.weight("csv_a", "csv_c"), 0);
    assert_eq!(found.weight("csv_a", "csv_filler"), 11);
    assert_eq!(found.weight("csv_filler", "csv_c"), 30);
    let graph = calculate_artist_relationships(&events);
    assert_eq!(graph.get("csv_b").unwrap(), &vec!["csv_filler", "csv_a", "csv_c"]);
    assert_eq!(graph.get("csv_a").unwrap(), &vec!["csv_b", "csv_filler"]);
}

#[test]
fn an_artist_is_related_to_at_most_twenty() {
    let mut events = Vec::new();
    for i in 0..25i64 {
        events.push(event(T0 + i, "S", &format!("Artist {:02}", i), 1, &[]));
    }
    let graph = calculate_artist_relationships(&events);
    assert_eq!(graph.len(), 25);
    for i in 0..graph.len() {
        assert_eq!(graph.value(i).len(), RELATED_LEN);
    }
    let expected: Vec<String> = (1..21).map(|i| format!("csv_artist_{:02}", i)).collect();
    assert_eq!(graph.get("csv_artist_00").unwrap(), &expected);
    let of_last = graph.get("csv_artist_24").unwrap();
    assert_eq!(of_last[0], "csv_artist_00");
    assert_eq!(of_last[19], "csv_artist_19");
}

#[test]
fn the_directories_name_every_artist_and_track() {
    let events = vec![
        event(T0, "Song A", "Artist X", 1, &["pop"]),
        event(T0 + 1, "Song B", "Artist Y", 1, &[]),
        event(T0 + 2, "Song A", "ARTIST X", 1, &["dance", "pop"]),
    ];
    let totals = accumulate(&events);
    let artists = build_artists(&events, totals.artist_genres_map());
    assert_eq!(keys_of(&artists), vec!["csv_artist_x", "csv_artist_y"]);
    let x = artists.get("csv_artist_x").unwrap();
    assert_eq!(x.id, "csv_artist_x");
    assert_eq!(x.name, "Artist X");
    assert_eq!(x.genres, Some(vec!["dance".to_string(), "pop".to_string()]));
    assert_eq!(x.popularity, Some(50));
    let y = artists.get("csv_artist_y").unwrap();
    assert_eq!(y.name, "Artist Y");
    assert_eq!(y.genres, Some(Vec::new()));
    let tracks = build_tracks(&events);
    assert_eq!(keys_of(&tracks), vec!["csv_song_a_-_artist_x", "csv_song_b_-_artist_y"]);
    let a = tracks.get("csv_song_a_-_artist_x").unwrap();
    assert_eq!(a.id, "csv_song_a_-_artist_x");
    assert_eq!(a.name, "Song A");
    assert_eq!(a.artist_id, "csv_artist_x");
    assert_eq!(a.artist_name, "Artist X");
}

#[test]
fn an_artist_without_recorded_genres_has_none() {
    let events = three_events();
    let mut genres: KeyedTable<Vec<String>> = KeyedTable::new();
    genres.insert("csv_artist_y".to_string(), vec!["rock".to_string()]);
    let artists = build_artists(&events, &genres);
    assert_eq!(artists.get("csv_artist_x").unwrap().genres, None);
    assert_eq!(artists.get("csv_artist_y").unwrap().genres, Some(vec!["rock".to_string()]));
    let totals = accumulate(&events);
    assert_eq!(totals.artist_genres_map().get("csv_artist_x").unwrap(), &vec!["pop"]);
}

#[test]
fn accumulators_count_while_rows_are_read() {
    let mut totals = Accumulators::new();
    assert_eq!(totals.artist_play_counts().len(), 0);
    let rows = [
        ("2024-01-02T00:00:00Z", "Song A", "Artist X", "200000", "pop, dance"),
        ("2024-01-01T00:00:00Z", "Song B", "Artist Y", "150000", ""),
        ("2024-01-03T00:00:00Z", "Song A", "artist x", "200000", "rock"),
    ];
    for (ts, track, artist, ms, genres) in rows {
        let row = listening_stats::CsvRecord {
            ts: ts.to_string(),
            track_name: track.to_string(),
            artist_name: artist.to_string(),
            ms_played: ms.to_string(),
            genres: String::new(),
            artist_genres: genres.to_string(),
        };
        assert!(normalize_into(&row, &mut totals).is_ok());
    }
    let bad = listening_stats::CsvRecord {
        ts: "2024-01-04T00:00:00Z".to_string(),
        track_name: "Song C".to_string(),
        artist_name: "Artist Z".to_string(),
        ms_played: "many".to_string(),
        genres: String::new(),
        artist_genres: String::new(),
    };
    assert_eq!(normalize_into(&bad, &mut totals).err(), Some(listening_stats::RowField::Duration));
    assert_eq!(keys_of(totals.artist_play_counts()), vec!["csv_artist_x", "csv_artist_y"]);
    assert_eq!(totals.artist_play_counts().get("csv_artist_x"), Some(&400_000));
    assert_eq!(totals.artist_play_counts().get("csv_artist_y"), Some(&150_000));
    assert_eq!(totals.track_play_counts().get("csv_song_a_-_artist_x"), Some(&400_000));
    assert_eq!(totals.track_play_counts().len(), 2);
    assert_eq!(totals.artist_genres_map().get("csv_artist_x").unwrap(), &vec!["rock"]);
    assert_eq!(totals.artist_genres_map().get("csv_artist_y").unwrap(), &Vec::<String>::new());
    assert!(totals.artist_genres_map().get("csv_artist_z").is_none());
}

fn at(text: &str, ms: u64, genres: &[&str]) -> ListeningEntry {
    ListeningEntry {
        timestamp: listening_stats::time::parse_timestamp(text).unwrap(),
        track_name: "T".to_string(),
        artist_name: "A".to_string(),
        ms_played: ms,
        genres: genres.iter().map(|g| g.to_string()).collect(),
    }
}

fn weights_of(bucket: &listening_stats::GenreBucket) -> Vec<(String, u64)> {
    (0..bucket.weights.len())
        .map(|i| (bucket.weights.key(i).clone(), *bucket.weights.value(i)))
        .collect()
}

#[test]
fn the_thirtieth_day_stays_and_the_next_opens_a_bucket() {
    let history = calculate_genre_history(&vec![
        at("2024-01-01T10:00:00Z", 100, &["pop"]),
        at("2024-01-31T23:00:00Z", 50, &["pop"]),
        at("2024-02-01T00:30:00Z", 70, &["rock"]),
    ]);
    assert_eq!(history.len(), 2);
    assert_eq!(history[0].start, Timestamp::from_parts(1_704_067_200, 0).unwrap());
    assert_eq!(weights_of(&history[0]), vec![("pop".to_string(), 150)]);
    assert_eq!(history[1].start, Timestamp::from_parts(1_706_745_600, 0).unwrap());
    assert_eq!(weights_of(&history[1]), vec![("rock".to_string(), 70)]);
}

#[test]
fn an_event_without_tags_opens_the_bucket_at_its_own_day() {
    let history = calculate_genre_history(&vec![
        at("2024-01-01T12:00:00Z", 100, &["pop"]),
        at("2024-02-15T12:00:00Z", 10, &[]),
        at("2024-03-10T12:00:00.75Z", 50, &["pop"]),
    ]);
    assert_eq!(history.len(), 2);
    assert_eq!(history[0].start, Timestamp::from_parts(1_704_067_200, 0).unwrap());
    assert_eq!(weights_of(&history[0]), vec![("pop".to_string(), 100)]);
    assert_eq!(history[1].start, Timestamp::from_parts(1_707_955_200, 0).unwrap());
    assert_eq!(history[1].start.subsec_nanos(), 0);
    assert_eq!(weights_of(&history[1]), vec![("pop".to_string(), 50)]);
}

#[test]
fn every_tag_of_an_event_gets_its_whole_play_time() {
    let history = calculate_genre_history(&vec![
        at("2024-01-01T08:00:00.123Z", 1000, &["pop", "rock"]),
        at("2024-01-02T08:00:00Z", 500, &["pop"]),
    ]);
    assert_eq!(history.len(), 1);
    assert_eq!(history[0].start, Timestamp::from_parts(1_704_067_200, 0).unwrap());
    assert_eq!(
        weights_of(&history[0]),
        vec![("pop".to_string(), 1500), ("rock".to_string(), 1000)]
    );
}

#[test]
fn a_log_is_untouched_by_its_copy() {
    let events = three_events();
    let copy = events.clone();
    let graph = calculate_artist_relationships(&copy);
    let twin = graph.clone();
    assert_eq!(keys_of(&twin), keys_of(&graph));
    assert_eq!(twin.get("csv_artist_x"), graph.get("csv_artist_x"));
    assert_eq!(events.len(), 3);
}
