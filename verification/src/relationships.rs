//! The artist relationship graph: which artists are heard close together.
//!
//! A window of fifty consecutive events slides over the log, one event at a
//! time; a log of fewer events is one window. Two different artists that
//! both occur in a window are together in it, and the weight of a pair is the
//! number of windows in which it is together. Each artist is related to the
//! twenty artists of greatest weight, the key deciding between equal weights.

use crate::counts::{distinct, lemma_distinct};
use crate::entry::{entry_views, ListeningEntry};
use crate::pairs::{cell_entries, cells_get, cells_insert, cells_new, count_pairs, PairCounts};
use crate::ranking::{get_top_n, is_ranking};
use crate::table::{KeyedTable, Tally};
use crate::text::text_views;
use crate::timeline::{index_subjects, spans_of, Span};
use crate::windows::{subject_key_of, subject_keys, Subject};
use vstd::pervasive::unreached;
use vstd::prelude::*;

verus! {

/// The number of events in a window.
pub const WINDOW_EVENTS: usize = 50;

/// The largest number of artists that one artist is related to.
pub const RELATED_LEN: usize = 20;

/// The number of windows over a log of `n` events.
pub open spec fn window_count(n: int) -> int {
    if n <= WINDOW_EVENTS {
        1
    } else {
        n - WINDOW_EVENTS + 1
    }
}

/// The place after the last event of window `i` in a log of `n` events.
pub open spec fn window_end(n: int, i: int) -> int {
    if i + WINDOW_EVENTS <= n {
        i + WINDOW_EVENTS
    } else {
        n
    }
}

/// Whether `x` stands at one of the places `lo..hi` of `items`.
pub open spec fn occurs_in<T>(items: Seq<T>, lo: int, hi: int, x: T) -> bool {
    exists|j: int| lo <= j < hi && #[trigger] items[j] == x
}

/// Whether `a` and `b` both occur in window `i`.
pub open spec fn together_in<T>(items: Seq<T>, i: int, a: T, b: T) -> bool {
    occurs_in(items, i, window_end(items.len() as int, i), a) && occurs_in(
        items,
        i,
        window_end(items.len() as int, i),
        b,
    )
}

/// The number of windows among the first `m` in which `a` and `b` both occur.
pub open spec fn weight_upto<T>(items: Seq<T>, a: T, b: T, m: int) -> nat
    decreases m,
{
    if m <= 0 {
        0
    } else {
        weight_upto(items, a, b, m - 1) + if together_in(items, m - 1, a, b) {
            1nat
        } else {
            0nat
        }
    }
}

/// The weight of the pair of `a` and `b`: the number of windows in which the
/// two are together; nothing is related to itself.
pub open spec fn weight<T>(items: Seq<T>, a: T, b: T) -> nat {
    if a == b {
        0
    } else {
        weight_upto(items, a, b, window_count(items.len() as int))
    }
}

proof fn lemma_weight_upto_symmetric<T>(items: Seq<T>, a: T, b: T, m: int)
    ensures
        weight_upto(items, a, b, m) == weight_upto(items, b, a, m),
    decreases m,
{
    if m > 0 {
        lemma_weight_upto_symmetric(items, a, b, m - 1);
    }
}

/// The weight of a pair does not depend on the order of the two.
pub proof fn lemma_weight_symmetric<T>(items: Seq<T>, a: T, b: T)
    ensures
        weight(items, a, b) == weight(items, b, a),
{
    lemma_weight_upto_symmetric(items, a, b, window_count(items.len() as int));
}

/// What occurs nowhere in the log is together with nothing.
pub proof fn lemma_weight_absent<T>(items: Seq<T>, a: T, b: T, m: int)
    requires
        0 <= m <= window_count(items.len() as int),
        !items.contains(a) || !items.contains(b),
    ensures
        weight_upto(items, a, b, m) == 0,
    decreases m,
{
    if m > 0 {
        lemma_weight_absent(items, a, b, m - 1);
        let hi = window_end(items.len() as int, m - 1);
        if occurs_in(items, m - 1, hi, a) {
            let j = choose|j: int| m - 1 <= j < hi && #[trigger] items[j] == a;
            assert(items.contains(a));
        }
        if occurs_in(items, m - 1, hi, b) {
            let j = choose|j: int| m - 1 <= j < hi && #[trigger] items[j] == b;
            assert(items.contains(b));
        }
    }
}

/// Whether `places` names, for each item, its place in the list `names` of
/// different names.
pub open spec fn places_name(places: Seq<usize>, names: Seq<Seq<char>>, keys: Seq<Seq<char>>) -> bool {
    &&& places.len() == keys.len()
    &&& names.no_duplicates()
    &&& forall|j: int|
        0 <= j < places.len() ==> (#[trigger] places[j]) < names.len() && names[places[j] as int]
            == keys[j]
}

proof fn lemma_occurs_by_place(
    places: Seq<usize>,
    names: Seq<Seq<char>>,
    keys: Seq<Seq<char>>,
    lo: int,
    hi: int,
    a: usize,
)
    requires
        places_name(places, names, keys),
        0 <= lo <= hi <= keys.len(),
        a < names.len(),
    ensures
        occurs_in(places, lo, hi, a) == occurs_in(keys, lo, hi, names[a as int]),
{
    if occurs_in(places, lo, hi, a) {
        let j = choose|j: int| lo <= j < hi && #[trigger] places[j] == a;
        assert(keys[j] == names[a as int]);
    }
    if occurs_in(keys, lo, hi, names[a as int]) {
        let j = choose|j: int| lo <= j < hi && #[trigger] keys[j] == names[a as int];
        assert(names[places[j] as int] == names[a as int]);
        assert(places[j] == a);
    }
}

proof fn lemma_weight_by_place(
    places: Seq<usize>,
    names: Seq<Seq<char>>,
    keys: Seq<Seq<char>>,
    a: usize,
    b: usize,
    m: int,
)
    requires
        places_name(places, names, keys),
        0 <= m <= window_count(keys.len() as int),
        a < names.len(),
        b < names.len(),
    ensures
        weight_upto(places, a, b, m) == weight_upto(keys, names[a as int], names[b as int], m),
    decreases m,
{
    if m > 0 {
        lemma_weight_by_place(places, names, keys, a, b, m - 1);
        let n = keys.len() as int;
        let hi = window_end(n, m - 1);
        if m - 1 <= n {
            lemma_occurs_by_place(places, names, keys, m - 1, hi, a);
            lemma_occurs_by_place(places, names, keys, m - 1, hi, b);
        }
    }
}

/// The place of the artist of each event among the artists of the log.
fn artist_places(entries: &Vec<ListeningEntry>, artists: &KeyedTable<Span>) -> (places: Vec<usize>)
    requires
        spans_of(artists, subject_keys(entry_views(entries@), Subject::Artist)),
    ensures
        places_name(
            places@,
            artists.keys(),
            subject_keys(entry_views(entries@), Subject::Artist),
        ),
{
    let ghost keys = subject_keys(entry_views(entries@), Subject::Artist);
    let mut places: Vec<usize> = Vec::new();
    let mut i: usize = 0;
    proof {
        artists.lemma_shape();
        lemma_distinct(keys);
    }
    while i < entries.len()
        invariant
            i <= entries@.len(),
            keys == subject_keys(entry_views(entries@), Subject::Artist),
            spans_of(artists, keys),
            artists.keys().no_duplicates(),
            forall|key: Seq<char>| distinct(keys).contains(key) <==> keys.contains(key),
            places@.len() == i,
            forall|j: int|
                0 <= j < i ==> (#[trigger] places@[j]) < artists.keys().len()
                    && artists.keys()[places@[j] as int] == keys[j],
        decreases entries@.len() - i,
    {
        let key = subject_key_of(&entries[i], Subject::Artist);
        assert(keys[i as int] == key@);
        assert(keys.contains(key@));
        // the table holds the key of every event
        let place = match artists.position(key.as_str()) {
            Some(place) => place,
            None => unreached(),
        };
        places.push(place);
        i += 1;
    }
    places
}

proof fn lemma_occurs_step(items: Seq<usize>, lo: int, j: int, a: usize)
    requires
        0 <= lo <= j < items.len(),
    ensures
        occurs_in(items, lo, j + 1, a) == (occurs_in(items, lo, j, a) || items[j] == a),
{
    if occurs_in(items, lo, j + 1, a) {
        let i = choose|i: int| lo <= i < j + 1 && #[trigger] items[i] == a;
        if i < j {
            assert(lo <= i < j && items[i] == a);
        }
    }
    if occurs_in(items, lo, j, a) {
        let i = choose|i: int| lo <= i < j && #[trigger] items[i] == a;
        assert(lo <= i < j + 1 && items[i] == a);
    }
    if items[j] == a {
        assert(lo <= j < j + 1 && items[j] == a);
    }
}

/// The different places that stand at `lo..hi` of `ids`, each once, in the
/// order in which they are first met.
fn window_places(ids: &Vec<usize>, lo: usize, hi: usize) -> (places: Vec<usize>)
    requires
        lo <= hi <= ids@.len(),
    ensures
        places@.no_duplicates(),
        forall|a: usize| #[trigger] places@.contains(a) <==> occurs_in(ids@, lo as int, hi as int, a),
{
    let mut places: Vec<usize> = Vec::new();
    let mut met = cells_new();
    let mut j: usize = lo;
    proof {
        assert forall|a: usize| #[trigger] places@.contains(a) <==> occurs_in(
            ids@,
            lo as int,
            lo as int,
            a,
        ) by {}
    }
    while j < hi
        invariant
            lo <= j <= hi <= ids@.len(),
            forall|a: usize|
                #[trigger] places@.contains(a) <==> cell_entries(met).contains_key(a as u128),
            places@.no_duplicates(),
            forall|a: usize|
                #[trigger] places@.contains(a) <==> occurs_in(ids@, lo as int, j as int, a),
        decreases hi - j,
    {
        let id = ids[j];
        let ghost before = places@;
        let ghost cells = cell_entries(met);
        if cells_get(&met, id as u128).is_none() {
            cells_insert(&mut met, id as u128, 1);
            places.push(id);
            proof {
                assert(!before.contains(id));
                assert forall|a: usize| #[trigger] places@.contains(a) <==> (before.contains(a)
                    || a == id) by {
                    if before.contains(a) {
                        let i = choose|i: int| 0 <= i < before.len() && before[i] == a;
                        assert(places@[i] == a);
                    }
                    if a == id {
                        assert(places@[before.len() as int] == id);
                    }
                    if places@.contains(a) {
                        let i = choose|i: int| 0 <= i < places@.len() && places@[i] == a;
                        if i < before.len() {
                            assert(before[i] == a);
                        }
                    }
                }
                assert forall|a: usize| #[trigger]
                    places@.contains(a) <==> cell_entries(met).contains_key(a as u128) by {
                    assert(before.contains(a) <==> cells.contains_key(a as u128));
                    assert(a as u128 == id as u128 <==> a == id);
                }
            }
        } else {
            assert(before.contains(id));
        }
        proof {
            assert forall|a: usize| #[trigger] places@.contains(a) <==> occurs_in(
                ids@,
                lo as int,
                j + 1,
                a,
            ) by {
                lemma_occurs_step(ids@, lo as int, j as int, a);
            }
        }
        j += 1;
    }
    places
}

/// The co-occurrence counts of the artists of a log.
pub struct CoOccurrences {
    artists: KeyedTable<Span>,
    counts: PairCounts,
    source: Ghost<Seq<Seq<char>>>,
}

impl CoOccurrences {
    /// The artist keys of the log that was counted, one per event.
    pub closed spec fn source(&self) -> Seq<Seq<char>> {
        self.source@
    }

    /// The counts are the weights of the pairs of artists of the log.
    pub closed spec fn wf(&self) -> bool {
        &&& spans_of(&self.artists, self.source@)
        &&& forall|a: usize, b: usize|
            a < self.artists.keys().len() && b < self.artists.keys().len()
                ==> #[trigger] self.counts.count(a, b) == weight(
                self.source@,
                self.artists.keys()[a as int],
                self.artists.keys()[b as int],
            )
    }

    /// The weight of the pair of the artists with keys `a` and `b`.
    pub fn weight(&self, a: &str, b: &str) -> (w: u64)
        requires
            self.wf(),
        ensures
            w == weight(self.source(), a@, b@),
    {
        proof {
            lemma_distinct(self.source@);
        }
        let left = self.artists.position(a);
        let right = self.artists.position(b);
        match (left, right) {
            (Some(x), Some(y)) => self.counts.get(x, y),
            _ => {
                proof {
                    lemma_weight_absent(
                        self.source@,
                        a@,
                        b@,
                        window_count(self.source@.len() as int),
                    );
                }
                0
            },
        }
    }
}

/// Counts, for every pair of artists of a log, the windows in which the two
/// are together.
pub fn count_co_occurrences(entries: &Vec<ListeningEntry>) -> (found: CoOccurrences)
    ensures
        found.wf(),
        found.source() == subject_keys(entry_views(entries@), Subject::Artist),
{
    let ghost keys = subject_keys(entry_views(entries@), Subject::Artist);
    let artists = index_subjects(entries, Subject::Artist);
    let ids = artist_places(entries, &artists);
    let n = entries.len();
    let width = artists.len();
    let mut counts = PairCounts::new();
    let windows: usize = if n <= WINDOW_EVENTS {
        1
    } else {
        n - WINDOW_EVENTS + 1
    };
    let mut m: usize = 0;
    while m < windows
        invariant
            m <= windows,
            windows == window_count(n as int),
            n == entries@.len(),
            n == ids@.len(),
            width == artists.keys().len(),
            places_name(ids@, artists.keys(), keys),
            forall|a: usize, b: usize| #[trigger] counts.count(a, b) <= m,
            forall|a: usize, b: usize|
                #[trigger] counts.count(a, b) == (if a == b {
                    0
                } else {
                    weight_upto(ids@, a, b, m as int)
                }),
        decreases windows - m,
    {
        let lo = m;
        let hi: usize = if n - lo >= WINDOW_EVENTS {
            lo + WINDOW_EVENTS
        } else {
            n
        };
        assert(hi == window_end(n as int, m as int));
        let places = window_places(&ids, lo, hi);
        let ghost before = counts;
        count_pairs(&mut counts, &places);
        proof {
            assert forall|a: usize, b: usize|
                #[trigger] counts.count(a, b) == (if a == b {
                    0
                } else {
                    weight_upto(ids@, a, b, m + 1)
                }) by {
                assert(before.count(a, b) == (if a == b {
                    0
                } else {
                    weight_upto(ids@, a, b, m as int)
                }));
                assert(places@.contains(a) <==> occurs_in(ids@, lo as int, hi as int, a));
                assert(places@.contains(b) <==> occurs_in(ids@, lo as int, hi as int, b));
            }
            assert forall|a: usize, b: usize| #[trigger] counts.count(a, b) <= m + 1 by {
                assert(before.count(a, b) <= m);
            }
        }
        m += 1;
    }
    proof {
        assert forall|a: usize, b: usize| a < width && b < width implies #[trigger] counts.count(
            a,
            b,
        ) == weight(keys, artists.keys()[a as int], artists.keys()[b as int]) by {
            lemma_weight_by_place(ids@, artists.keys(), keys, a, b, windows as int);
            if a != b {
                assert(artists.keys()[a as int] != artists.keys()[b as int]);
            }
        }
    }
    CoOccurrences { artists, counts, source: Ghost(keys) }
}

// ---------------------------------------------------------------------
// The graph
// ---------------------------------------------------------------------

/// Those of `candidates` that are together with `a` in some window.
pub open spec fn partners_among(
    keys: Seq<Seq<char>>,
    a: Seq<char>,
    candidates: Seq<Seq<char>>,
) -> Seq<Seq<char>>
    decreases candidates.len(),
{
    if candidates.len() == 0 {
        Seq::empty()
    } else {
        let front = partners_among(keys, a, candidates.drop_last());
        if weight(keys, a, candidates.last()) > 0 {
            front.push(candidates.last())
        } else {
            front
        }
    }
}

/// The weights of the pairs that `a` makes with `partners_among`.
pub open spec fn weights_among(
    keys: Seq<Seq<char>>,
    a: Seq<char>,
    candidates: Seq<Seq<char>>,
) -> Seq<u64>
    decreases candidates.len(),
{
    if candidates.len() == 0 {
        Seq::empty()
    } else {
        let front = weights_among(keys, a, candidates.drop_last());
        if weight(keys, a, candidates.last()) > 0 {
            front.push(weight(keys, a, candidates.last()) as u64)
        } else {
            front
        }
    }
}

/// The artists that are together with `a` in some window, in the order of
/// their first events.
pub open spec fn partners(keys: Seq<Seq<char>>, a: Seq<char>) -> Seq<Seq<char>> {
    partners_among(keys, a, distinct(keys))
}

/// The weights of the pairs that `a` makes with its partners.
pub open spec fn partner_weights(keys: Seq<Seq<char>>, a: Seq<char>) -> Seq<u64> {
    weights_among(keys, a, distinct(keys))
}

/// Those of `artists` that have a partner.
pub open spec fn related_among(keys: Seq<Seq<char>>, artists: Seq<Seq<char>>) -> Seq<Seq<char>>
    decreases artists.len(),
{
    if artists.len() == 0 {
        Seq::empty()
    } else {
        let front = related_among(keys, artists.drop_last());
        if partners(keys, artists.last()).len() > 0 {
            front.push(artists.last())
        } else {
            front
        }
    }
}

/// Whether `graph` is the relationship graph of the artist keys `keys`: one
/// entry for each artist that has a partner, in the order of their first
/// events, with the ranking of its best twenty partners.
pub open spec fn relationships_of(graph: &KeyedTable<Vec<String>>, keys: Seq<Seq<char>>) -> bool {
    &&& graph.wf()
    &&& graph.keys() == related_among(keys, distinct(keys))
    &&& graph.values().len() == graph.keys().len()
    &&& forall|j: int|
        0 <= j < graph.keys().len() ==> is_ranking(
            text_views((#[trigger] graph.values()[j])@),
            partners(keys, graph.keys()[j]),
            partner_weights(keys, graph.keys()[j]),
            RELATED_LEN as nat,
        )
}

proof fn lemma_partners_among(keys: Seq<Seq<char>>, a: Seq<char>, candidates: Seq<Seq<char>>)
    ensures
        partners_among(keys, a, candidates).len() == weights_among(keys, a, candidates).len(),
        forall|x: Seq<char>| #[trigger]
            partners_among(keys, a, candidates).contains(x) ==> candidates.contains(x),
    decreases candidates.len(),
{
    if candidates.len() > 0 {
        let front = candidates.drop_last();
        lemma_partners_among(keys, a, front);
        assert forall|x: Seq<char>| partners_among(keys, a, candidates).contains(x) implies candidates.contains(
            x,
        ) by {
            let found = partners_among(keys, a, candidates);
            let i = choose|i: int| 0 <= i < found.len() && found[i] == x;
            if i < partners_among(keys, a, front).len() {
                assert(partners_among(keys, a, front)[i] == x);
                assert(partners_among(keys, a, front).contains(x));
                assert(front.contains(x));
                let k = choose|k: int| 0 <= k < front.len() && front[k] == x;
                assert(candidates[k] == x);
            } else {
                assert(candidates[candidates.len() - 1] == x);
            }
        }
    }
}

proof fn lemma_related_among(keys: Seq<Seq<char>>, artists: Seq<Seq<char>>)
    ensures
        forall|x: Seq<char>| #[trigger]
            related_among(keys, artists).contains(x) ==> artists.contains(x),
    decreases artists.len(),
{
    if artists.len() > 0 {
        let front = artists.drop_last();
        lemma_related_among(keys, front);
        assert forall|x: Seq<char>| related_among(keys, artists).contains(x) implies artists.contains(
            x,
        ) by {
            let found = related_among(keys, artists);
            let i = choose|i: int| 0 <= i < found.len() && found[i] == x;
            if i < related_among(keys, front).len() {
                assert(related_among(keys, front)[i] == x);
                assert(related_among(keys, front).contains(x));
                assert(front.contains(x));
                let k = choose|k: int| 0 <= k < front.len() && front[k] == x;
                assert(artists[k] == x);
            } else {
                assert(artists[artists.len() - 1] == x);
            }
        }
    }
}

proof fn lemma_not_in_front(names: Seq<Seq<char>>, b: int)
    requires
        names.no_duplicates(),
        0 <= b < names.len(),
    ensures
        !names.take(b).contains(names[b]),
{
    if names.take(b).contains(names[b]) {
        let k = choose|k: int| 0 <= k < b && names.take(b)[k] == names[b];
        assert(names[k] == names[b]);
    }
}

impl CoOccurrences {
    /// The partners of the artist at place `a`, each with the weight of the
    /// pair.
    fn partner_tally(&self, a: usize) -> (tally: Tally)
        requires
            self.wf(),
            a < self.artists.keys().len(),
        ensures
            tally.wf(),
            tally.keys() == partners(self.source(), self.artists.keys()[a as int]),
            tally.values() == partner_weights(self.source(), self.artists.keys()[a as int]),
    {
        let ghost keys = self.source@;
        let ghost names = self.artists.keys();
        let ghost me = names[a as int];
        let mut tally = Tally::new();
        let width = self.artists.len();
        let mut b: usize = 0;
        proof {
            self.artists.lemma_shape();
            assert(names.take(0) =~= Seq::<Seq<char>>::empty());
        }
        while b < width
            invariant
                b <= width,
                a < width,
                self.wf(),
                keys == self.source@,
                names == self.artists.keys(),
                names.no_duplicates(),
                width == names.len(),
                me == names[a as int],
                tally.wf(),
                tally.keys() == partners_among(keys, me, names.take(b as int)),
                tally.values() == weights_among(keys, me, names.take(b as int)),
            decreases width - b,
        {
            let count = self.counts.get(a, b);
            proof {
                assert(names.take(b + 1).drop_last() =~= names.take(b as int));
                assert(names.take(b + 1).last() == names[b as int]);
                assert(count == weight(keys, me, names[b as int]));
                lemma_partners_among(keys, me, names.take(b as int));
                lemma_not_in_front(names, b as int);
            }
            if count > 0 {
                tally.insert(self.artists.key(b).clone(), count);
            }
            b += 1;
        }
        proof {
            assert(names.take(width as int) =~= names);
        }
        tally
    }

    /// The relationship graph made from the counts.
    pub fn related(&self) -> (graph: KeyedTable<Vec<String>>)
        requires
            self.wf(),
        ensures
            relationships_of(&graph, self.source()),
            forall|j: int|
                0 <= j < graph.values().len() ==> (#[trigger] graph.values()[j])@.len()
                    <= RELATED_LEN,
    {
        let ghost keys = self.source@;
        let ghost names = self.artists.keys();
        let mut graph: KeyedTable<Vec<String>> = KeyedTable::new();
        let width = self.artists.len();
        let mut a: usize = 0;
        proof {
            self.artists.lemma_shape();
            assert(names.take(0) =~= Seq::<Seq<char>>::empty());
        }
        while a < width
            invariant
                a <= width,
                self.wf(),
                keys == self.source@,
                names == self.artists.keys(),
                names == distinct(keys),
                names.no_duplicates(),
                width == names.len(),
                graph.wf(),
                graph.keys() == related_among(keys, names.take(a as int)),
                graph.values().len() == graph.keys().len(),
                forall|j: int|
                    0 <= j < graph.keys().len() ==> is_ranking(
                        text_views((#[trigger] graph.values()[j])@),
                        partners(keys, graph.keys()[j]),
                        partner_weights(keys, graph.keys()[j]),
                        RELATED_LEN as nat,
                    ),
                forall|j: int|
                    0 <= j < graph.values().len() ==> (#[trigger] graph.values()[j])@.len()
                        <= RELATED_LEN,
            decreases width - a,
        {
            let tally = self.partner_tally(a);
            proof {
                assert(names.take(a + 1).drop_last() =~= names.take(a as int));
                assert(names.take(a + 1).last() == names[a as int]);
                lemma_related_among(keys, names.take(a as int));
                lemma_not_in_front(names, a as int);
            }
            if tally.len() > 0 {
                let top = get_top_n(&tally, RELATED_LEN);
                let ghost before = graph.values();
                let ghost ranked = text_views(top@);
                graph.insert(self.artists.key(a).clone(), top);
                proof {
                    assert forall|j: int| 0 <= j < graph.keys().len() implies is_ranking(
                        text_views((#[trigger] graph.values()[j])@),
                        partners(keys, graph.keys()[j]),
                        partner_weights(keys, graph.keys()[j]),
                        RELATED_LEN as nat,
                    ) by {
                        if j < before.len() {
                            assert(graph.values()[j] == before[j]);
                        }
                    }
                    assert forall|j: int| 0 <= j < graph.values().len() implies (
                    #[trigger] graph.values()[j])@.len() <= RELATED_LEN by {
                        if j < before.len() {
                            assert(graph.values()[j] == before[j]);
                        } else {
                            assert(ranked.len() == graph.values()[j]@.len());
                        }
                    }
                }
            }
            a += 1;
        }
        proof {
            assert(names.take(width as int) =~= names);
        }
        graph
    }
}

/// The relationship graph of a log: for each artist that is ever together
/// with another, the twenty artists it is most often together with.
pub fn calculate_artist_relationships(entries: &Vec<ListeningEntry>) -> (graph: KeyedTable<
    Vec<String>,
>)
    ensures
        relationships_of(&graph, subject_keys(entry_views(entries@), Subject::Artist)),
        forall|j: int|
            0 <= j < graph.values().len() ==> (#[trigger] graph.values()[j])@.len() <= RELATED_LEN,
{
    let found = count_co_occurrences(entries);
    found.related()
}

} // verus!
