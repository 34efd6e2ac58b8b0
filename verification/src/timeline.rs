//! Where each artist and each track first and last occurs in a log, and the
//! timelines of first appearances.

use crate::counts::{distinct, lemma_distinct};
use crate::entry::{entry_views, EntryView, ListeningEntry};
use crate::table::KeyedTable;
use crate::time::Timestamp;
use crate::windows::{subject_key, subject_key_of, subject_keys, Subject};
use vstd::prelude::*;

verus! {

/// The first place at which `key` stands in `keys`, or -1 if it stands
/// nowhere.
pub open spec fn first_of(keys: Seq<Seq<char>>, key: Seq<char>) -> int
    decreases keys.len(),
{
    if keys.len() == 0 {
        -1
    } else {
        let earlier = first_of(keys.drop_last(), key);
        if earlier >= 0 {
            earlier
        } else if keys.last() == key {
            keys.len() - 1
        } else {
            -1
        }
    }
}

/// The last place at which `key` stands in `keys`, or -1 if it stands
/// nowhere.
pub open spec fn last_of(keys: Seq<Seq<char>>, key: Seq<char>) -> int
    decreases keys.len(),
{
    if keys.len() == 0 {
        -1
    } else if keys.last() == key {
        keys.len() - 1
    } else {
        last_of(keys.drop_last(), key)
    }
}

/// `first_of` finds the first occurrence of a key, and -1 for a key that does
/// not occur.
pub proof fn lemma_first_of(keys: Seq<Seq<char>>, key: Seq<char>)
    ensures
        keys.contains(key) ==> 0 <= first_of(keys, key) < keys.len() && keys[first_of(keys, key)]
            == key,
        !keys.contains(key) ==> first_of(keys, key) == -1,
        forall|j: int| 0 <= j < first_of(keys, key) ==> keys[j] != key,
    decreases keys.len(),
{
    if keys.len() > 0 {
        let front = keys.drop_last();
        lemma_first_of(front, key);
        if front.contains(key) {
            let i = choose|i: int| 0 <= i < front.len() && front[i] == key;
            assert(keys[i] == key);
        }
        if keys.contains(key) && !front.contains(key) {
            let i = choose|i: int| 0 <= i < keys.len() && keys[i] == key;
            if i < front.len() {
                assert(front[i] == key);
            }
        }
        if keys.last() == key {
            assert(keys[keys.len() - 1] == key);
        }
        assert forall|j: int| 0 <= j < first_of(keys, key) implies keys[j] != key by {
            if j < front.len() {
                assert(front[j] == keys[j]);
                if !front.contains(key) {
                    assert(front[j] != key);
                }
            }
        }
    }
}

/// `last_of` finds the last occurrence of a key, and -1 for a key that does
/// not occur.
pub proof fn lemma_last_of(keys: Seq<Seq<char>>, key: Seq<char>)
    ensures
        keys.contains(key) ==> 0 <= last_of(keys, key) < keys.len() && keys[last_of(keys, key)]
            == key,
        !keys.contains(key) ==> last_of(keys, key) == -1,
        forall|j: int| last_of(keys, key) < j < keys.len() ==> keys[j] != key,
    decreases keys.len(),
{
    if keys.len() > 0 {
        let front = keys.drop_last();
        lemma_last_of(front, key);
        if keys.last() == key {
            assert(keys[keys.len() - 1] == key);
        } else {
            if front.contains(key) {
                let i = choose|i: int| 0 <= i < front.len() && front[i] == key;
                assert(keys[i] == key);
            }
            if keys.contains(key) {
                let i = choose|i: int| 0 <= i < keys.len() && keys[i] == key;
                assert(front[i] == key);
            }
            assert forall|j: int| last_of(keys, key) < j < keys.len() implies keys[j] != key by {
                if j < front.len() {
                    assert(front[j] == keys[j]);
                }
            }
        }
    }
}

/// The first and the last place of one key in a log.
#[derive(Clone, Copy, Debug)]
pub struct Span {
    pub first: usize,
    pub last: usize,
}

/// Whether `spans` lists, for the keys of a log in the order of their first
/// occurrence, the first and the last place of each.
pub open spec fn spans_of(spans: &KeyedTable<Span>, keys: Seq<Seq<char>>) -> bool {
    &&& spans.wf()
    &&& spans.keys() == distinct(keys)
    &&& spans.values().len() == spans.keys().len()
    &&& forall|j: int|
        0 <= j < spans.keys().len() ==> (#[trigger] spans.values()[j]).first == first_of(
            keys,
            spans.keys()[j],
        ) && spans.values()[j].last == last_of(keys, spans.keys()[j])
}

/// The places in a log have a first and a last occurrence inside it.
pub proof fn lemma_spans_in_range(spans: &KeyedTable<Span>, keys: Seq<Seq<char>>, j: int)
    requires
        spans_of(spans, keys),
        0 <= j < spans.keys().len(),
    ensures
        spans.values()[j].first <= spans.values()[j].last < keys.len(),
        keys[spans.values()[j].first as int] == spans.keys()[j],
        keys[spans.values()[j].last as int] == spans.keys()[j],
{
    lemma_distinct(keys);
    let key = spans.keys()[j];
    assert(distinct(keys).contains(key));
    lemma_first_of(keys, key);
    lemma_last_of(keys, key);
}

/// Finds, for each artist or each track of a log, its first and its last
/// event.
pub fn index_subjects(entries: &Vec<ListeningEntry>, subject: Subject) -> (spans: KeyedTable<Span>)
    ensures
        spans_of(&spans, subject_keys(entry_views(entries@), subject)),
{
    let mut spans: KeyedTable<Span> = KeyedTable::new();
    let ghost keys = subject_keys(entry_views(entries@), subject);
    let n = entries.len();
    let mut i: usize = 0;
    assert(keys.take(0) =~= Seq::<Seq<char>>::empty());
    while i < n
        invariant
            i <= n,
            n == entries@.len(),
            keys == subject_keys(entry_views(entries@), subject),
            spans_of(&spans, keys.take(i as int)),
        decreases n - i,
    {
        let key = subject_key_of(&entries[i], subject);
        let ghost seen = keys.take(i as int);
        let ghost next = keys.take(i + 1);
        let ghost old_keys = spans.keys();
        let ghost old_values = spans.values();
        proof {
            assert(key@ == keys[i as int]);
            assert(next.drop_last() =~= seen);
            assert(next.last() == key@);
            lemma_distinct(seen);
            spans.lemma_shape();
            assert forall|j: int| 0 <= j < old_keys.len() implies first_of(next, old_keys[j])
                == first_of(seen, old_keys[j]) by {
                assert(distinct(seen).contains(old_keys[j]));
                lemma_first_of(seen, old_keys[j]);
            }
        }
        match spans.position(key.as_str()) {
            Some(slot) => {
                let first = spans.value(slot).first;
                spans.set(slot, Span { first, last: i });
                proof {
                    assert forall|j: int| 0 <= j < spans.keys().len() implies (
                    #[trigger] spans.values()[j]).first == first_of(next, spans.keys()[j])
                        && spans.values()[j].last == last_of(next, spans.keys()[j]) by {
                        if j != slot {
                            assert(old_keys[j] != old_keys[slot as int]);
                            assert(spans.values()[j] == old_values[j]);
                        }
                    }
                }
            },
            None => {
                spans.insert(key, Span { first: i, last: i });
                proof {
                    lemma_first_of(seen, key@);
                    assert forall|j: int| 0 <= j < spans.keys().len() implies (
                    #[trigger] spans.values()[j]).first == first_of(next, spans.keys()[j])
                        && spans.values()[j].last == last_of(next, spans.keys()[j]) by {
                        if j < old_keys.len() {
                            assert(old_keys.contains(old_keys[j]));
                            assert(spans.values()[j] == old_values[j]);
                        }
                    }
                }
            },
        }
        i += 1;
    }
    assert(keys.take(n as int) =~= keys);
    spans
}

/// Whether `seen` records, for each key of the log in the order of its first
/// occurrence, the time of its first event.
pub open spec fn first_seen_of(
    seen: &KeyedTable<Timestamp>,
    events: Seq<EntryView>,
    subject: Subject,
) -> bool {
    &&& seen.wf()
    &&& seen.keys() == distinct(subject_keys(events, subject))
    &&& seen.values().len() == seen.keys().len()
    &&& forall|j: int|
        0 <= j < seen.keys().len() ==> {
            let first = first_of(subject_keys(events, subject), seen.keys()[j]);
            &&& (#[trigger] seen.values()[j]).secs() == events[first].secs
            &&& seen.values()[j].nanos() == events[first].nanos
        }
}

/// The time at which each artist, or each track, is first seen.
pub fn first_seen(entries: &Vec<ListeningEntry>, subject: Subject) -> (seen: KeyedTable<Timestamp>)
    ensures
        first_seen_of(&seen, entry_views(entries@), subject),
{
    let spans = index_subjects(entries, subject);
    let ghost events = entry_views(entries@);
    let ghost keys = subject_keys(events, subject);
    let mut seen: KeyedTable<Timestamp> = KeyedTable::new();
    let count = spans.len();
    let mut j: usize = 0;
    proof {
        spans.lemma_shape();
    }
    while j < count
        invariant
            j <= count,
            count == spans.keys().len(),
            spans_of(&spans, keys),
            spans.keys().no_duplicates(),
            events == entry_views(entries@),
            keys == subject_keys(events, subject),
            seen.wf(),
            seen.keys() == spans.keys().take(j as int),
            seen.values().len() == j,
            forall|k: int|
                0 <= k < j ==> {
                    let first = first_of(keys, spans.keys()[k]);
                    &&& (#[trigger] seen.values()[k]).secs() == events[first].secs
                    &&& seen.values()[k].nanos() == events[first].nanos
                },
        decreases count - j,
    {
        let span = *spans.value(j);
        proof {
            lemma_spans_in_range(&spans, keys, j as int);
            if spans.keys().take(j as int).contains(spans.keys()[j as int]) {
                let k = choose|k: int|
                    0 <= k < j && spans.keys().take(j as int)[k] == spans.keys()[j as int];
                assert(spans.keys()[k] == spans.keys()[j as int]);
            }
        }
        let ghost before = seen.values();
        seen.insert(spans.key(j).clone(), entries[span.first].timestamp);
        proof {
            assert(seen.keys() =~= spans.keys().take(j + 1));
            assert forall|k: int| 0 <= k < j + 1 implies {
                let first = first_of(keys, spans.keys()[k]);
                &&& (#[trigger] seen.values()[k]).secs() == events[first].secs
                &&& seen.values()[k].nanos() == events[first].nanos
            } by {
                if k < j {
                    assert(seen.values()[k] == before[k]);
                }
            }
        }
        j += 1;
    }
    assert(spans.keys().take(count as int) =~= spans.keys());
    seen
}

/// The first appearances of a log: when each artist, and when each track, is
/// first seen.
pub fn calculate_first_seen(entries: &Vec<ListeningEntry>) -> (seen: (
    KeyedTable<Timestamp>,
    KeyedTable<Timestamp>,
))
    ensures
        first_seen_of(&seen.0, entry_views(entries@), Subject::Artist),
        first_seen_of(&seen.1, entry_views(entries@), Subject::Track),
{
    let artist_first_seen = first_seen(entries, Subject::Artist);
    let track_first_seen = first_seen(entries, Subject::Track);
    (artist_first_seen, track_first_seen)
}

} // verus!
