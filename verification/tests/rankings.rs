use listening_stats::counts::new_tally;
use listening_stats::ranking::get_top_n;
use listening_stats::windows::{
    calculate_top_artists, calculate_top_tracks, subject_key_of, window_tally, Subject, Window,
    MEDIUM_WINDOW_SECONDS, RANKING_LEN, SHORT_WINDOW_SECONDS,
};
use listening_stats::{ListeningEntry, Tally, Timestamp};

const T0: i64 = 1_704_067_200;
const DAY: i64 = 86_400;

fn event(secs: i64, track: &str, artist: &str, ms: u64, genres: &[&str]) -> ListeningEntry {
    ListeningEntry {
        timestamp: Timestamp::from_parts(secs, 0).unwrap(),
        track_name: track.to_string(),
        artist_name: artist.to_string(),
        ms_played: ms,
        genres: genres.iter().map(|g| g.to_string()).collect(),
    }
}

fn three_events() -> Vec<ListeningEntry> {
    vec![
        event(T0, "Song A", "Artist X", 200_000, &["pop"]),
        event(T0 + DAY, "Song B", "Artist Y", 150_000, &["rock"]),
        event(T0 + 2 * DAY, "Song A", "Artist X", 200_000, &["pop"]),
    ]
}

fn total(tally: &Tally, key: &str) -> Option<u64> {
    tally.get(key).copied()
}

#[test]
fn three_events_rank_artist_x_before_artist_y() {
    let events = three_events();
    let lifetime = window_tally(&events, Subject::Artist, Window::Lifetime);
    assert_eq!(total(&lifetime, "csv_artist_x"), Some(400_000));
    assert_eq!(total(&lifetime, "csv_artist_y"), Some(150_000));
    let (short, medium, long) = calculate_top_artists(&events, &lifetime);
    assert_eq!(long, vec!["csv_artist_x", "csv_artist_y"]);
    assert_eq!(short, vec!["csv_artist_x", "csv_artist_y"]);
    assert_eq!(medium, vec!["csv_artist_x", "csv_artist_y"]);
}

#[test]
fn three_events_rank_their_tracks() {
    let events = three_events();
    let lifetime = window_tally(&events, Subject::Track, Window::Lifetime);
    assert_eq!(total(&lifetime, "csv_song_a_-_artist_x"), Some(400_000));
    let (short, medium, long) = calculate_top_tracks(&events, &lifetime);
    let expected = vec!["csv_song_a_-_artist_x", "csv_song_b_-_artist_y"];
    assert_eq!(short, expected);
    assert_eq!(medium, expected);
    assert_eq!(long, expected);
}

#[test]
fn subject_keys_are_identity_keys() {
    let e = event(T0, "Song A", "Artist X", 1, &[]);
    assert_eq!(subject_key_of(&e, Subject::Artist), "csv_artist_x");
    assert_eq!(subject_key_of(&e, Subject::Track), "csv_song_a_-_artist_x");
}

#[test]
fn equal_totals_rank_by_key() {
    let mut counts = new_tally();
    counts.add("csv_zeta", 10);
    counts.add("csv_alpha", 10);
    counts.add("csv_mid", 10);
    counts.add("csv_top", 11);
    counts.add("csv_low", 9);
    assert_eq!(
        get_top_n(&counts, 50),
        vec!["csv_top", "csv_alpha", "csv_mid", "csv_zeta", "csv_low"]
    );
    assert_eq!(get_top_n(&counts, 2), vec!["csv_top", "csv_alpha"]);
    assert_eq!(get_top_n(&counts, 0), Vec::<String>::new());
}

#[test]
fn rankings_do_not_depend_on_the_order_of_counting() {
    let names = ["d", "a", "c", "b", "e"];
    let mut forward = new_tally();
    for name in names {
        forward.add(name, 5);
    }
    let mut backward = new_tally();
    for name in names.iter().rev() {
        backward.add(name, 5);
    }
    assert_eq!(get_top_n(&forward, 3), vec!["a", "b", "c"]);
    assert_eq!(get_top_n(&forward, 3), get_top_n(&backward, 3));
    assert_eq!(get_top_n(&forward, 3), get_top_n(&forward, 3));
}

#[test]
fn a_ranking_holds_at_most_fifty() {
    let mut events = Vec::new();
    for i in 0..60u64 {
        events.push(event(T0 + i as i64, "Song", &format!("Artist {:02}", i), 1_000 + i, &[]));
    }
    let lifetime = window_tally(&events, Subject::Artist, Window::Lifetime);
    assert_eq!(lifetime.len(), 60);
    let (short, medium, long) = calculate_top_artists(&events, &lifetime);
    assert_eq!(short.len(), RANKING_LEN);
    assert_eq!(medium.len(), 50);
    assert_eq!(long.len(), 50);
    assert_eq!(long[0], "csv_artist_59");
    assert_eq!(long[49], "csv_artist_10");
    let all = get_top_n(&lifetime, 100);
    assert_eq!(all.len(), 60);
}

#[test]
fn windows_end_at_the_latest_event() {
    let latest = T0 + 400 * DAY;
    let events = vec![
        event(latest - MEDIUM_WINDOW_SECONDS - 1, "S", "Old", 7, &[]),
        event(latest - MEDIUM_WINDOW_SECONDS, "S", "Edge Medium", 11, &[]),
        event(latest - MEDIUM_WINDOW_SECONDS + 1, "S", "In Medium", 13, &[]),
        event(latest - SHORT_WINDOW_SECONDS, "S", "Edge Short", 17, &[]),
        event(latest - SHORT_WINDOW_SECONDS + 1, "S", "In Short", 19, &[]),
        event(latest, "S", "Latest", 23, &[]),
    ];
    let short = window_tally(&events, Subject::Artist, Window::Short);
    assert_eq!(short.len(), 2);
    assert_eq!(total(&short, "csv_in_short"), Some(19));
    assert_eq!(total(&short, "csv_latest"), Some(23));
    assert_eq!(total(&short, "csv_edge_short"), None);
    let medium = window_tally(&events, Subject::Artist, Window::Medium);
    assert_eq!(medium.len(), 4);
    assert_eq!(total(&medium, "csv_edge_medium"), None);
    assert_eq!(total(&medium, "csv_in_medium"), Some(13));
    assert_eq!(total(&medium, "csv_edge_short"), Some(17));
    let lifetime = window_tally(&events, Subject::Artist, Window::Lifetime);
    assert_eq!(lifetime.len(), 6);
    assert_eq!(total(&lifetime, "csv_old"), Some(7));
    let (top_short, top_medium, top_long) = calculate_top_artists(&events, &lifetime);
    assert_eq!(top_short, vec!["csv_latest", "csv_in_short"]);
    assert_eq!(
        top_medium,
        vec!["csv_latest", "csv_in_short", "csv_edge_short", "csv_in_medium"]
    );
    assert_eq!(top_long.len(), 6);
}

#[test]
fn a_wider_window_counts_no_less() {
    let latest = T0 + 400 * DAY;
    let mut events = Vec::new();
    for i in 0..200i64 {
        let artist = format!("Artist {}", i % 7);
        events.push(event(latest - (199 - i) * 2 * DAY, "S", &artist, 100 + i as u64, &[]));
    }
    let short = window_tally(&events, Subject::Artist, Window::Short);
    let medium = window_tally(&events, Subject::Artist, Window::Medium);
    let lifetime = window_tally(&events, Subject::Artist, Window::Lifetime);
    assert!(short.len() > 0);
    for i in 0..lifetime.len() {
        let key = lifetime.key(i).as_str();
        let s = total(&short, key).unwrap_or(0);
        let m = total(&medium, key).unwrap_or(0);
        let l = *lifetime.value(i);
        assert!(s <= m && m <= l);
    }
    for i in 0..short.len() {
        assert!(medium.get(short.key(i).as_str()).is_some());
    }
}

#[test]
fn the_nanoseconds_of_the_latest_event_count_at_the_edge() {
    let latest = Timestamp::from_parts(T0 + SHORT_WINDOW_SECONDS, 500).unwrap();
    let mut events = vec![
        event(T0, "S", "At 0", 1, &[]),
        event(T0, "S", "At 500", 1, &[]),
        event(T0, "S", "At 501", 1, &[]),
        event(T0, "S", "Latest", 1, &[]),
    ];
    events[0].timestamp = Timestamp::from_parts(T0, 0).unwrap();
    events[1].timestamp = Timestamp::from_parts(T0, 500).unwrap();
    events[2].timestamp = Timestamp::from_parts(T0, 501).unwrap();
    events[3].timestamp = latest;
    let short = window_tally(&events, Subject::Artist, Window::Short);
    assert_eq!(short.len(), 2);
    assert!(short.get("csv_at_501").is_some());
    assert!(short.get("csv_at_500").is_none());
}

#[test]
fn totals_stop_at_the_largest_number() {
    let events = vec![
        event(T0, "S", "Artist X", u64::MAX - 1, &[]),
        event(T0 + 1, "S", "Artist X", 5, &[]),
        event(T0 + 2, "S", "artist x", 5, &[]),
    ];
    let lifetime = window_tally(&events, Subject::Artist, Window::Lifetime);
    assert_eq!(lifetime.len(), 1);
    assert_eq!(total(&lifetime, "csv_artist_x"), Some(u64::MAX));
}

#[test]
fn an_empty_log_has_empty_rankings() {
    let events: Vec<ListeningEntry> = Vec::new();
    let lifetime = window_tally(&events, Subject::Artist, Window::Lifetime);
    assert_eq!(lifetime.len(), 0);
    let (short, medium, long) = calculate_top_artists(&events, &lifetime);
    assert!(short.is_empty() && medium.is_empty() && long.is_empty());
    let (short, medium, long) = calculate_top_tracks(&events, &new_tally());
    assert!(short.is_empty() && medium.is_empty() && long.is_empty());
}

#[test]
fn the_long_ranking_goes_by_the_totals_given() {
    let events = three_events();
    let mut given = new_tally();
    given.add("csv_artist_y", 9);
    given.add("csv_artist_x", 3);
    given.add("csv_elsewhere", 5);
    let (_, _, long) = calculate_top_artists(&events, &given);
    assert_eq!(long, vec!["csv_artist_y", "csv_elsewhere", "csv_artist_x"]);
}

#[test]
fn a_window_that_ends_in_a_leap_second_starts_at_the_second_after_it() {
    let latest = Timestamp::from_parts(T0 + SHORT_WINDOW_SECONDS - 1, 1_500_000_000).unwrap();
    let mut events = vec![
        event(T0, "S", "In The Leap", 1, &[]),
        event(T0, "S", "Too Early", 1, &[]),
        event(T0, "S", "Just In", 1, &[]),
        event(T0, "S", "Latest", 1, &[]),
    ];
    events[0].timestamp = Timestamp::from_parts(T0 - 1, 1_600_000_000).unwrap();
    events[1].timestamp = Timestamp::from_parts(T0, 500_000_000).unwrap();
    events[2].timestamp = Timestamp::from_parts(T0, 500_000_001).unwrap();
    events[3].timestamp = latest;
    let short = window_tally(&events, Subject::Artist, Window::Short);
    assert_eq!(short.len(), 2);
    assert!(short.get("csv_just_in").is_some());
    assert!(short.get("csv_latest").is_some());
    assert!(short.get("csv_in_the_leap").is_none());
    assert!(short.get("csv_too_early").is_none());
}
