use listening_stats::snapshot::{assemble, build_snapshot, normalize_rows};
use listening_stats::{
    get_csv_data, load_csv_data, CsvData, CsvRecord, CsvStore, KeyedTable, ListeningEntry,
    MalformedRow, RowField, SnapshotNotReady, Timestamp,
};

fn row(ts: &str, track: &str, artist: &str, ms: &str, genres: &str) -> CsvRecord {
    CsvRecord {
        ts: ts.to_string(),
        track_name: track.to_string(),
        artist_name: artist.to_string(),
        ms_played: ms.to_string(),
        genres: String::new(),
        artist_genres: genres.to_string(),
    }
}

fn three_rows() -> Vec<CsvRecord> {
    vec![
        row("2024-01-01T00:00:00Z", "Song A", "Artist X", "200000", "pop"),
        row("2024-01-02T00:00:00Z", "Song B", "Artist Y", "150000", "rock"),
        row("2024-01-03T00:00:00Z", "Song A", "Artist X", "200000", "pop"),
    ]
}

fn keys_of<V>(table: &KeyedTable<V>) -> Vec<String> {
    (0..table.len()).map(|i| table.key(i).clone()).collect()
}

fn rankings(data: &CsvData) -> Vec<Vec<String>> {
    vec![
        data.top_artists_short.clone(),
        data.top_artists_medium.clone(),
        data.top_artists_long.clone(),
        data.top_tracks_short.clone(),
        data.top_tracks_medium.clone(),
        data.top_tracks_long.clone(),
    ]
}

#[test]
fn three_rows_make_a_snapshot() {
    let data = build_snapshot(&three_rows()).unwrap();
    assert_eq!(data.entries.len(), 3);
    assert_eq!(data.top_artists_long, vec!["csv_artist_x", "csv_artist_y"]);
    assert_eq!(data.top_artists_short, vec!["csv_artist_x", "csv_artist_y"]);
    assert_eq!(data.top_tracks_medium, vec!["csv_song_a_-_artist_x", "csv_song_b_-_artist_y"]);
    assert_eq!(data.artist_first_seen.get("csv_artist_x").unwrap().seconds(), 1_704_067_200);
    assert_eq!(data.artist_relationships.get("csv_artist_x").unwrap(), &vec!["csv_artist_y"]);
    assert_eq!(data.genre_history.len(), 1);
    assert_eq!(data.genre_history[0].weights.get("pop"), Some(&400_000));
    assert_eq!(keys_of(&data.artists), vec!["csv_artist_x", "csv_artist_y"]);
    assert_eq!(data.artists.get("csv_artist_y").unwrap().name, "Artist Y");
    assert_eq!(data.tracks.len(), 2);
}

#[test]
fn events_are_put_in_order_of_time() {
    let rows = vec![
        row("2024-01-03T00:00:00Z", "Late", "C", "1", ""),
        row("2024-01-01T00:00:00+00:00", "Tie One", "A", "1", ""),
        row("2024-01-02T00:00:00Z", "Middle", "B", "1", ""),
        row("2024-01-01T01:00:00+01:00", "Tie Two", "A", "1", ""),
        row("2023-12-31T23:59:59.999Z", "Early", "D", "1", ""),
    ];
    let data = build_snapshot(&rows).unwrap();
    let order: Vec<&str> = data.entries.iter().map(|e| e.track_name.as_str()).collect();
    assert_eq!(order, vec!["Early", "Tie One", "Tie Two", "Middle", "Late"]);
    // the directories go by the order of the rows, the timelines by time
    assert_eq!(keys_of(&data.artists), vec!["csv_c", "csv_a", "csv_b", "csv_d"]);
    assert_eq!(keys_of(&data.artist_first_seen), vec!["csv_d", "csv_a", "csv_b", "csv_c"]);
}

#[test]
fn the_first_bad_row_stops_the_reading() {
    let mut rows = three_rows();
    rows.push(row("2024-01-04T00:00:00Z", "Song C", "Artist Z", "12.5", ""));
    rows.push(row("never", "Song D", "Artist Z", "1", ""));
    assert_eq!(
        build_snapshot(&rows).err(),
        Some(MalformedRow { row: 3, field: RowField::Duration })
    );
    assert_eq!(
        normalize_rows(&rows).err().map(|e| (e.row, e.field)),
        Some((3, RowField::Duration))
    );
    rows[3].ms_played = "12".to_string();
    assert_eq!(
        build_snapshot(&rows).err(),
        Some(MalformedRow { row: 4, field: RowField::Timestamp })
    );
    rows[0].ts = "9999999-01-01T00:00:00Z".to_string();
    assert_eq!(
        build_snapshot(&rows).err(),
        Some(MalformedRow { row: 0, field: RowField::Timestamp })
    );
}

#[test]
fn a_store_starts_empty_and_keeps_what_was_published() {
    let mut store = CsvStore::new();
    assert!(get_csv_data(&store).is_none());
    assert!(store.current().is_none());
    assert_eq!(store.snapshot().err(), Some(SnapshotNotReady));
    assert_eq!(load_csv_data(&mut store, &three_rows()), Ok(()));
    let first = get_csv_data(&store).unwrap();
    assert_eq!(first.entries.len(), 3);
    assert_eq!(store.snapshot().unwrap().entries.len(), 3);

    let mut bad = three_rows();
    bad[1].ts = "soon".to_string();
    assert_eq!(
        load_csv_data(&mut store, &bad),
        Err(MalformedRow { row: 1, field: RowField::Timestamp })
    );
    assert_eq!(get_csv_data(&store).unwrap().entries.len(), 3);

    let one = vec![row("2024-02-01T00:00:00Z", "Song Q", "Artist Q", "5", "")];
    assert_eq!(load_csv_data(&mut store, &one), Ok(()));
    assert_eq!(get_csv_data(&store).unwrap().entries.len(), 1);
    assert_eq!(get_csv_data(&store).unwrap().top_artists_long, vec!["csv_artist_q"]);
    // a reader keeps the snapshot it was given
    assert_eq!(first.entries.len(), 3);
    assert_eq!(first.top_artists_long, vec!["csv_artist_x", "csv_artist_y"]);
}

#[test]
fn publishing_replaces_the_snapshot_as_a_whole() {
    let mut store = CsvStore::new();
    store.publish(build_snapshot(&three_rows()).unwrap());
    assert_eq!(store.current().unwrap().tracks.len(), 2);
    store.publish(build_snapshot(&Vec::new()).unwrap());
    let now = store.current().unwrap();
    assert_eq!(now.tracks.len(), 0);
    assert!(now.entries.is_empty());
}

#[test]
fn no_rows_make_an_empty_snapshot() {
    let data = build_snapshot(&Vec::new()).unwrap();
    assert!(data.entries.is_empty());
    assert_eq!(data.artists.len(), 0);
    assert_eq!(data.tracks.len(), 0);
    for ranking in rankings(&data) {
        assert!(ranking.is_empty());
    }
    assert_eq!(data.artist_first_seen.len(), 0);
    assert_eq!(data.track_first_seen.len(), 0);
    assert!(data.genre_history.is_empty());
    assert_eq!(data.artist_relationships.len(), 0);
}

#[test]
fn the_same_rows_give_the_same_rankings() {
    let mut rows = Vec::new();
    for i in 0..120 {
        let day = 1 + (i * 7) % 28;
        let ts = format!("2024-{:02}-{:02}T10:00:00Z", 1 + i % 6, day);
        let artist = format!("Artist {}", (i * 5) % 13);
        let track = format!("Song {}", i % 9);
        rows.push(row(&ts, &track, &artist, "1000", "pop"));
    }
    let first = build_snapshot(&rows).unwrap();
    let second = build_snapshot(&rows).unwrap();
    assert_eq!(rankings(&first), rankings(&second));
    assert_eq!(keys_of(&first.artist_relationships), keys_of(&second.artist_relationships));
    for i in 0..first.artist_relationships.len() {
        assert_eq!(first.artist_relationships.value(i), second.artist_relationships.value(i));
        assert!(first.artist_relationships.value(i).len() <= 20);
    }
    for ranking in rankings(&first) {
        assert!(ranking.len() <= 50);
    }
    // artists with equal totals stand in the order of their keys
    let long = &first.top_artists_long;
    assert_eq!(long.len(), 13);
    let mut sorted_ties = long[..3].to_vec();
    sorted_ties.sort();
    assert_eq!(&long[..3], &sorted_ties[..]);
}

#[test]
fn a_log_of_events_is_assembled_without_reading_rows() {
    let log = vec![
        ListeningEntry {
            timestamp: Timestamp::from_parts(20, 0).unwrap(),
            track_name: "Second".to_string(),
            artist_name: "B".to_string(),
            ms_played: 3,
            genres: vec!["x".to_string()],
        },
        ListeningEntry {
            timestamp: Timestamp::from_parts(10, 0).unwrap(),
            track_name: "First".to_string(),
            artist_name: "A".to_string(),
            ms_played: 4,
            genres: Vec::new(),
        },
    ];
    let data = assemble(log);
    assert_eq!(data.entries[0].track_name, "First");
    assert_eq!(data.top_artists_long, vec!["csv_a", "csv_b"]);
    assert_eq!(data.genre_history.len(), 1);
    assert_eq!(data.genre_history[0].start.seconds(), 0);
}

#[test]
fn test_csv_loader() {
    let mut store = CsvStore::new();
    let result = load_csv_data(&mut store, &three_rows());
    assert!(result.is_ok(), "CSV loading should succeed");

    let data = get_csv_data(&store);
    assert!(data.is_some(), "CSV data should be loaded");

    let data = data.unwrap();
    assert!(!data.entries.is_empty(), "Should have listening entries");
    assert!(data.artists.len() > 0, "Should have artists");
    assert!(data.tracks.len() > 0, "Should have tracks");

    println!("Loaded {} entries", data.entries.len());
    println!("Loaded {} artists", data.artists.len());
    println!("Loaded {} tracks", data.tracks.len());
    println!("Top artists (short): {}", data.top_artists_short.len());
    println!("Top tracks (short): {}", data.top_tracks_short.len());
}

#[test]
fn a_snapshot_can_be_copied() {
    let data = build_snapshot(&three_rows()).unwrap();
    let copy = data.clone();
    assert_eq!(rankings(&copy), rankings(&data));
    assert_eq!(copy.entries.len(), 3);
    assert_eq!(keys_of(&copy.artists), keys_of(&data.artists));
    assert_eq!(copy.genre_history[0].start, data.genre_history[0].start);
    assert_eq!(copy.artist_first_seen.get("csv_artist_y"), data.artist_first_seen.get("csv_artist_y"));
}
