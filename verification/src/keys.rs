//! Identity keys: the fixed texts under which artists and tracks are counted.
//! A key is made from a display name alone, so two names that differ only in
//! case or in spaces against underscores share one key.

use crate::text::{lowercase, lowercase_of, spaces_to_underscores, underscored};
use vstd::prelude::*;
use vstd::string::*;

verus! {

/// The identity key of a display name: the marker `csv_`, then the name with
/// spaces replaced by underscores, in lower case.
pub open spec fn identity_key(name: Seq<char>) -> Seq<char> {
    "csv_"@ + lowercase_of(underscored(name))
}

/// The text that names a track together with its artist.
pub open spec fn track_label(track: Seq<char>, artist: Seq<char>) -> Seq<char> {
    track + " - "@ + artist
}

/// The identity key of a track by an artist.
pub open spec fn track_key(track: Seq<char>, artist: Seq<char>) -> Seq<char> {
    identity_key(track_label(track, artist))
}

/// Derives the identity key of a display name.
pub fn identity_key_of(name: &str) -> (key: String)
    ensures
        key@ == identity_key(name@),
{
    let replaced = spaces_to_underscores(name);
    let lowered = lowercase(replaced.as_str());
    let mut key = String::from_str("csv_");
    key.append(lowered.as_str());
    key
}

/// Joins a track name and an artist name into one label.
pub fn track_label_of(track: &str, artist: &str) -> (label: String)
    ensures
        label@ == track_label(track@, artist@),
{
    let mut label = String::from_str(track);
    label.append(" - ");
    label.append(artist);
    label
}

/// Derives the identity key of a track by an artist.
pub fn track_key_of(track: &str, artist: &str) -> (key: String)
    ensures
        key@ == track_key(track@, artist@),
{
    let label = track_label_of(track, artist);
    identity_key_of(label.as_str())
}

} // verus!
