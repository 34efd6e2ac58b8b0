use listening_stats::entry::normalize_row;
use listening_stats::time::{parse_timestamp, MAX_SECONDS, MIN_SECONDS};
use listening_stats::{CsvRecord, RowField, Timestamp};

fn row(ts: &str, ms: &str, genres: &str, artist_genres: &str) -> CsvRecord {
    CsvRecord {
        ts: ts.to_string(),
        track_name: "Song A".to_string(),
        artist_name: "Artist X".to_string(),
        ms_played: ms.to_string(),
        genres: genres.to_string(),
        artist_genres: artist_genres.to_string(),
    }
}

#[test]
fn timestamps_are_read_as_utc_instants() {
    let t = parse_timestamp("2024-03-01T12:30:00+01:00").unwrap();
    assert_eq!(t.seconds(), 1_709_292_600);
    assert_eq!(t.subsec_nanos(), 0);
    let z = parse_timestamp("2024-03-01T11:30:00.5Z").unwrap();
    assert_eq!(z.seconds(), 1_709_292_600);
    assert_eq!(z.subsec_nanos(), 500_000_000);
    let early = parse_timestamp("1969-12-31T23:59:59Z").unwrap();
    assert_eq!(early.seconds(), -1);
    assert!(parse_timestamp("2024-03-01 12:30").is_none());
    assert!(parse_timestamp("").is_none());
    assert!(parse_timestamp("2024-13-01T00:00:00Z").is_none());
    assert!(parse_timestamp("not a time").is_none());
}

#[test]
fn instants_are_made_from_parts_in_range() {
    assert!(Timestamp::from_parts(0, 0).is_some());
    assert!(Timestamp::from_parts(MIN_SECONDS, 0).is_some());
    assert!(Timestamp::from_parts(MAX_SECONDS, 1_999_999_999).is_some());
    assert!(Timestamp::from_parts(MIN_SECONDS - 1, 0).is_none());
    assert!(Timestamp::from_parts(MAX_SECONDS + 1, 0).is_none());
    assert!(Timestamp::from_parts(0, 2_000_000_000).is_none());
}

#[test]
fn instants_compare_by_seconds_then_nanoseconds() {
    let a = Timestamp::from_parts(10, 5).unwrap();
    let b = Timestamp::from_parts(10, 6).unwrap();
    let c = Timestamp::from_parts(11, 0).unwrap();
    assert!(b.later_than(&a));
    assert!(c.later_than(&b));
    assert!(!a.later_than(&a));
    assert!(!a.later_than(&b));
    assert!(c.later_than_before(&c, 1));
    assert!(a.later_than_before(&c, 1));
    let d = Timestamp::from_parts(11, 5).unwrap();
    assert!(!a.later_than_before(&d, 1));
    assert!(b.later_than_before(&d, 1));
    assert!(!b.later_than_before(&d, 0));
}

#[test]
fn midnight_is_the_floor_of_the_day() {
    let noon = Timestamp::from_parts(1_704_067_200 + 43_200, 7).unwrap();
    assert_eq!(noon.start_of_day().seconds(), 1_704_067_200);
    assert_eq!(noon.start_of_day().subsec_nanos(), 0);
    let before_epoch = Timestamp::from_parts(-1, 0).unwrap();
    assert_eq!(before_epoch.start_of_day().seconds(), -86_400);
    let at_midnight = Timestamp::from_parts(86_400, 0).unwrap();
    assert_eq!(at_midnight.start_of_day().seconds(), 86_400);
    let lowest = Timestamp::from_parts(MIN_SECONDS, 0).unwrap();
    assert_eq!(lowest.start_of_day().seconds(), MIN_SECONDS);
}

#[test]
fn a_row_becomes_an_event() {
    let entry = normalize_row(&row("2024-01-01T00:00:00Z", "200000", "rock", "pop, dance")).unwrap();
    assert_eq!(entry.timestamp.seconds(), 1_704_067_200);
    assert_eq!(entry.track_name, "Song A");
    assert_eq!(entry.artist_name, "Artist X");
    assert_eq!(entry.ms_played, 200_000);
    assert_eq!(entry.genres, vec!["pop", "dance"]);
}

#[test]
fn track_genres_stand_in_where_the_artist_has_none() {
    let entry = normalize_row(&row("2024-01-01T00:00:00Z", "1", "rock, metal", "")).unwrap();
    assert_eq!(entry.genres, vec!["rock", "metal"]);
    let blank = normalize_row(&row("2024-01-01T00:00:00Z", "1", "rock", " ")).unwrap();
    assert_eq!(blank.genres, Vec::<String>::new());
    let none = normalize_row(&row("2024-01-01T00:00:00Z", "1", "", "")).unwrap();
    assert_eq!(none.genres, Vec::<String>::new());
}

#[test]
fn a_bad_field_is_named() {
    let bad_time = normalize_row(&row("yesterday", "1", "", ""));
    assert_eq!(bad_time.err(), Some(RowField::Timestamp));
    let bad_duration = normalize_row(&row("2024-01-01T00:00:00Z", "long", "", ""));
    assert_eq!(bad_duration.err(), Some(RowField::Duration));
    let both = normalize_row(&row("yesterday", "-1", "", ""));
    assert_eq!(both.err(), Some(RowField::Duration));
}

#[test]
fn a_duration_may_be_written_in_hexadecimal() {
    let entry = normalize_row(&row("2024-01-01T00:00:00Z", "0x30d40", "", "")).unwrap();
    assert_eq!(entry.ms_played, 200_000);
    let bad = normalize_row(&row("2024-01-01T00:00:00Z", "0x", "", ""));
    assert_eq!(bad.err(), Some(RowField::Duration));
}

#[test]
fn a_leap_second_keeps_its_nanoseconds() {
    let leap = parse_timestamp("2016-12-31T23:59:60.25Z").unwrap();
    assert_eq!(leap.seconds(), 1_483_228_799);
    assert_eq!(leap.subsec_nanos(), 1_250_000_000);
    let next = parse_timestamp("2017-01-01T00:00:00Z").unwrap();
    assert!(next.later_than(&leap));
}

#[test]
fn a_span_before_a_leap_second_starts_at_the_second_after_it() {
    let leap = Timestamp::from_parts(1_000, 1_500_000_000).unwrap();
    let at = |secs: i64, nanos: u32| Timestamp::from_parts(secs, nanos).unwrap();
    // 100 seconds before the leap second: second 901 and 500 ms
    assert!(!at(901, 500_000_000).later_than_before(&leap, 100));
    assert!(at(901, 500_000_001).later_than_before(&leap, 100));
    assert!(!at(901, 400_000_000).later_than_before(&leap, 100));
    assert!(!at(900, 1_900_000_000).later_than_before(&leap, 100));
    assert!(at(902, 0).later_than_before(&leap, 100));
    // no span: the leap second itself
    assert!(!at(1_000, 1_500_000_000).later_than_before(&leap, 0));
    assert!(at(1_000, 1_500_000_001).later_than_before(&leap, 0));
}

#[test]
fn rows_and_events_can_be_copied() {
    let first = row("2024-01-01T00:00:00Z", "5", "", "pop");
    let copy = first.clone();
    assert_eq!(copy.ts, first.ts);
    let entry = normalize_row(&first).unwrap();
    let twin = entry.clone();
    assert_eq!(twin.timestamp, entry.timestamp);
    assert_eq!(twin.genres, entry.genres);
    assert_eq!(twin.ms_played, 5);
}
