//! Play events, the raw rows they are read from, and the reading itself.

use crate::text::{
    char_is_whitespace, is_white_space, parse_unsigned_u64, text_views, to_chars, unsigned_u64,
};
use crate::time::{instant_of, parse_timestamp, rfc3339_instant, Timestamp};
use vstd::prelude::*;
use vstd::string::*;

verus! {

/// One play of a track.
#[derive(Clone, Debug)]
pub struct ListeningEntry {
    /// When the play was recorded.
    pub timestamp: Timestamp,
    /// The display name of the track.
    pub track_name: String,
    /// The display name of the artist.
    pub artist_name: String,
    /// How long the track was played, in milliseconds.
    pub ms_played: u64,
    /// The genre tags of the play, in the order given.
    pub genres: Vec<String>,
}

/// A play event as plain values.
pub struct EntryView {
    pub secs: int,
    pub nanos: int,
    pub track_name: Seq<char>,
    pub artist_name: Seq<char>,
    pub ms_played: u64,
    pub genres: Seq<Seq<char>>,
}

impl View for ListeningEntry {
    type V = EntryView;

    open spec fn view(&self) -> EntryView {
        EntryView {
            secs: self.timestamp.secs(),
            nanos: self.timestamp.nanos(),
            track_name: self.track_name@,
            artist_name: self.artist_name@,
            ms_played: self.ms_played,
            genres: text_views(self.genres@),
        }
    }
}

/// The events of a list as plain values.
pub open spec fn entry_views(entries: Seq<ListeningEntry>) -> Seq<EntryView> {
    Seq::new(entries.len(), |i: int| entries[i]@)
}

/// One row of the listening log, every field as the text it was read as.
#[derive(Clone, Debug)]
pub struct CsvRecord {
    /// The time of the play, an RFC 3339 date and time.
    pub ts: String,
    /// The display name of the track.
    pub track_name: String,
    /// The display name of the artist.
    pub artist_name: String,
    /// The milliseconds played: an unsigned number, decimal or, after `0x`,
    /// hexadecimal.
    pub ms_played: String,
    /// The genre tags of the track, separated by commas.
    pub genres: String,
    /// The genre tags of the artist, separated by commas; preferred over
    /// those of the track where there are any.
    pub artist_genres: String,
}

/// A raw row as plain values.
pub struct RecordView {
    pub ts: Seq<char>,
    pub track_name: Seq<char>,
    pub artist_name: Seq<char>,
    pub ms_played: Seq<char>,
    pub genres: Seq<char>,
    pub artist_genres: Seq<char>,
}

impl View for CsvRecord {
    type V = RecordView;

    open spec fn view(&self) -> RecordView {
        RecordView {
            ts: self.ts@,
            track_name: self.track_name@,
            artist_name: self.artist_name@,
            ms_played: self.ms_played@,
            genres: self.genres@,
            artist_genres: self.artist_genres@,
        }
    }
}

/// The rows of a list as plain values.
pub open spec fn record_views(rows: Seq<CsvRecord>) -> Seq<RecordView> {
    Seq::new(rows.len(), |i: int| rows[i]@)
}

/// The field on which the reading of a row failed.
#[derive(Clone, Copy, Debug, PartialEq, Eq, Structural)]
pub enum RowField {
    /// The play duration is no unsigned number that fits 64 bits.
    Duration,
    /// The time is no RFC 3339 date and time, or lies out of range.
    Timestamp,
}

// ---------------------------------------------------------------------
// Genre tags
// ---------------------------------------------------------------------

/// The position of the first comma of `s`, or its length if it has none.
pub open spec fn first_comma(s: Seq<char>) -> int
    decreases s.len(),
{
    if s.len() == 0 || s[0] == ',' {
        0
    } else {
        1 + first_comma(s.drop_first())
    }
}

/// `s` without the white space at its start.
pub open spec fn trim_start(s: Seq<char>) -> Seq<char>
    decreases s.len(),
{
    if s.len() > 0 && is_white_space(s[0]) {
        trim_start(s.drop_first())
    } else {
        s
    }
}

/// `s` without the white space at its end.
pub open spec fn trim_end(s: Seq<char>) -> Seq<char>
    decreases s.len(),
{
    if s.len() > 0 && is_white_space(s.last()) {
        trim_end(s.drop_last())
    } else {
        s
    }
}

/// `s` without the white space at either end.
pub open spec fn trimmed(s: Seq<char>) -> Seq<char> {
    trim_end(trim_start(s))
}

/// The genre tags that a comma-separated text lists: each piece between
/// commas without the white space around it, empty pieces left out.
pub open spec fn genre_tags(s: Seq<char>) -> Seq<Seq<char>>
    decreases s.len(),
{
    let cut = first_comma(s);
    let head = trimmed(s.take(cut));
    let kept = if head.len() > 0 {
        seq![head]
    } else {
        Seq::empty()
    };
    if cut < 0 || cut >= s.len() {
        kept
    } else {
        kept + genre_tags(s.skip(cut + 1))
    }
}

proof fn lemma_first_comma(s: Seq<char>, cut: int)
    requires
        0 <= cut <= s.len(),
        forall|j: int| 0 <= j < cut ==> s[j] != ',',
        cut < s.len() ==> s[cut] == ',',
    ensures
        first_comma(s) == cut,
    decreases s.len(),
{
    if cut > 0 {
        lemma_first_comma(s.drop_first(), cut - 1);
    }
}

proof fn lemma_trim_start_step(s: Seq<char>, k: int)
    requires
        0 <= k < s.len(),
        is_white_space(s[k]),
    ensures
        trim_start(s.skip(k)) == trim_start(s.skip(k + 1)),
{
    assert(s.skip(k).drop_first() =~= s.skip(k + 1));
}

proof fn lemma_trim_end_step(s: Seq<char>, k: int)
    requires
        0 < k <= s.len(),
        is_white_space(s[k - 1]),
    ensures
        trim_end(s.take(k)) == trim_end(s.take(k - 1)),
{
    assert(s.take(k).drop_last() =~= s.take(k - 1));
}

/// Splits a comma-separated list of genre tags.
pub fn parse_genres(genres_str: &str) -> (tags: Vec<String>)
    ensures
        text_views(tags@) == genre_tags(genres_str@),
{
    let chars = to_chars(genres_str);
    let n = chars.len();
    let mut tags: Vec<String> = Vec::new();
    let mut start: usize = 0;
    assert(chars@.skip(0) =~= chars@);
    assert(text_views(tags@) =~= Seq::<Seq<char>>::empty());
    loop
        invariant_except_break
            start <= n,
            n == chars@.len(),
            chars@ == genres_str@,
            genre_tags(chars@) == text_views(tags@) + genre_tags(chars@.skip(start as int)),
        ensures
            text_views(tags@) == genre_tags(genres_str@),
        decreases n - start,
    {
        let ghost rest = chars@.skip(start as int);
        let mut cut: usize = start;
        while cut < n && chars[cut] != ','
            invariant
                start <= cut <= n,
                n == chars@.len(),
                forall|j: int| start <= j < cut ==> chars@[j] != ',',
            decreases n - cut,
        {
            cut += 1;
        }
        let ghost piece = chars@.subrange(start as int, cut as int);
        proof {
            lemma_first_comma(rest, cut - start);
            assert(rest.take(cut - start) =~= piece);
        }
        let mut a: usize = start;
        assert(piece.skip(0) =~= piece);
        while a < cut && char_is_whitespace(chars[a])
            invariant
                start <= a <= cut <= n,
                n == chars@.len(),
                piece == chars@.subrange(start as int, cut as int),
                trim_start(piece) == trim_start(piece.skip(a - start)),
            decreases cut - a,
        {
            proof {
                lemma_trim_start_step(piece, a - start);
            }
            a += 1;
        }
        let ghost front = piece.skip(a - start);
        assert(trim_start(piece) == front);
        let mut b: usize = cut;
        assert(front.take(cut - a) =~= front);
        while b > a && char_is_whitespace(chars[b - 1])
            invariant
                start <= a <= b <= cut <= n,
                n == chars@.len(),
                piece == chars@.subrange(start as int, cut as int),
                front == piece.skip(a - start),
                trim_end(front) == trim_end(front.take(b - a)),
            decreases b - a,
        {
            proof {
                lemma_trim_end_step(front, b - a);
            }
            b -= 1;
        }
        let ghost head = front.take(b - a);
        assert(trimmed(piece) == head);
        assert(head =~= genres_str@.subrange(a as int, b as int));
        let ghost before = text_views(tags@);
        if b > a {
            let tag = genres_str.substring_char(a, b).to_owned();
            tags.push(tag);
            assert(text_views(tags@) =~= before + seq![head]);
        }
        if cut == n {
            proof {
                assert(genre_tags(rest) =~= (if head.len() > 0 {
                    seq![head]
                } else {
                    Seq::<Seq<char>>::empty()
                }));
                assert(text_views(tags@) =~= before + genre_tags(rest));
            }
            break ;
        }
        proof {
            assert(rest.skip(cut - start + 1) =~= chars@.skip(cut + 1));
            assert(genre_tags(chars@) =~= text_views(tags@) + genre_tags(chars@.skip(cut + 1)));
        }
        start = cut + 1;
    }
    tags
}

// ---------------------------------------------------------------------
// Reading a row
// ---------------------------------------------------------------------

/// The text of a row that lists its genres: that of the artist where it is
/// not empty, else that of the track.
pub open spec fn genre_source(row: RecordView) -> Seq<char> {
    if row.artist_genres.len() > 0 {
        row.artist_genres
    } else {
        row.genres
    }
}

/// The event that a row stands for, or the field that cannot be read. The
/// duration is read first.
pub open spec fn normalized(row: RecordView) -> Result<EntryView, RowField> {
    match unsigned_u64(row.ms_played) {
        None => Err(RowField::Duration),
        Some(ms_played) => match instant_of(rfc3339_instant(row.ts)) {
            None => Err(RowField::Timestamp),
            Some((secs, nanos)) => Ok(
                EntryView {
                    secs,
                    nanos,
                    track_name: row.track_name,
                    artist_name: row.artist_name,
                    ms_played,
                    genres: genre_tags(genre_source(row)),
                },
            ),
        },
    }
}

/// The views of the outcome of reading a row.
pub open spec fn outcome_view(outcome: Result<ListeningEntry, RowField>) -> Result<
    EntryView,
    RowField,
> {
    match outcome {
        Ok(entry) => Ok(entry@),
        Err(field) => Err(field),
    }
}

/// Reads one raw row into a play event.
pub fn normalize_row(row: &CsvRecord) -> (outcome: Result<ListeningEntry, RowField>)
    ensures
        outcome_view(outcome) == normalized(row@),
{
    let ms_played = match parse_unsigned_u64(row.ms_played.as_str()) {
        Some(ms) => ms,
        None => {
            return Err(RowField::Duration);
        },
    };
    let timestamp = match parse_timestamp(row.ts.as_str()) {
        Some(t) => t,
        None => {
            return Err(RowField::Timestamp);
        },
    };
    let genres = if !row.artist_genres.as_str().is_empty() {
        parse_genres(row.artist_genres.as_str())
    } else {
        parse_genres(row.genres.as_str())
    };
    Ok(
        ListeningEntry {
            timestamp,
            track_name: row.track_name.clone(),
            artist_name: row.artist_name.clone(),
            ms_played,
            genres,
        },
    )
}

} // verus!
