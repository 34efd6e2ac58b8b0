//! Rankings: the keys of a tally with the largest totals, largest first, ties
//! in the order of the keys.

use crate::table::Tally;
use crate::text::{
    lemma_text_lt_asymmetric, lemma_text_lt_irreflexive, lemma_text_lt_total,
    lemma_text_lt_transitive, text_before, text_lt, text_views,
};
use vstd::prelude::*;

verus! {

/// Whether key `a` with total `x` ranks before key `b` with total `y`: the
/// larger total first, and of equal totals the key that comes first.
pub open spec fn ranks_before(a: Seq<char>, x: u64, b: Seq<char>, y: u64) -> bool {
    x > y || (x == y && text_lt(a, b))
}

/// The total listed for `key`.
pub open spec fn score_of(keys: Seq<Seq<char>>, totals: Seq<u64>, key: Seq<char>) -> u64 {
    totals[keys.index_of(key)]
}

/// Whether key `a` ranks before key `b` by the totals listed for them.
pub open spec fn key_before(
    keys: Seq<Seq<char>>,
    totals: Seq<u64>,
    a: Seq<char>,
    b: Seq<char>,
) -> bool {
    ranks_before(a, score_of(keys, totals, a), b, score_of(keys, totals, b))
}

/// Whether `top` is the ranking of the best `n` of `keys`: as many keys as
/// there are, up to `n`; each before the next; and every key left out ranking
/// after all that are in.
pub open spec fn is_ranking(
    top: Seq<Seq<char>>,
    keys: Seq<Seq<char>>,
    totals: Seq<u64>,
    n: nat,
) -> bool {
    &&& top.len() == if n <= keys.len() {
        n
    } else {
        keys.len()
    }
    &&& forall|i: int| 0 <= i < top.len() ==> keys.contains(#[trigger] top[i])
    &&& forall|i: int, j: int|
        0 <= i < j < top.len() ==> key_before(keys, totals, #[trigger] top[i], #[trigger] top[j])
    &&& forall|k: int, i: int|
        0 <= k < keys.len() && 0 <= i < top.len() && !top.contains(keys[k]) ==> key_before(
            keys,
            totals,
            #[trigger] top[i],
            #[trigger] keys[k],
        )
}

/// Where no key occurs twice, the total listed for a key is the one at its
/// place.
pub proof fn lemma_score_of(keys: Seq<Seq<char>>, totals: Seq<u64>, i: int)
    requires
        keys.no_duplicates(),
        0 <= i < keys.len(),
    ensures
        score_of(keys, totals, keys[i]) == totals[i],
{
    let j = keys.index_of(keys[i]);
    assert(0 <= j < keys.len() && keys[j] == keys[i]);
}

/// Whether the key at place `x` ranks before the key at place `y`.
pub open spec fn slot_before(keys: Seq<Seq<char>>, totals: Seq<u64>, x: int, y: int) -> bool {
    ranks_before(keys[x], totals[x], keys[y], totals[y])
}

proof fn lemma_slot_before_transitive(
    keys: Seq<Seq<char>>,
    totals: Seq<u64>,
    x: int,
    y: int,
    z: int,
)
    requires
        slot_before(keys, totals, x, y),
        slot_before(keys, totals, y, z),
    ensures
        slot_before(keys, totals, x, z),
{
    if totals[x] == totals[y] && totals[y] == totals[z] {
        lemma_text_lt_transitive(keys[x], keys[y], keys[z]);
    }
}

proof fn lemma_slot_before_total(keys: Seq<Seq<char>>, totals: Seq<u64>, x: int, y: int)
    requires
        keys.no_duplicates(),
        0 <= x < keys.len(),
        0 <= y < keys.len(),
        x != y,
    ensures
        slot_before(keys, totals, x, y) || slot_before(keys, totals, y, x),
{
    lemma_text_lt_total(keys[x], keys[y]);
}

/// The state of a ranking after the first `c` places were looked at.
spec fn slots_ranked(
    picks: Seq<usize>,
    keys: Seq<Seq<char>>,
    totals: Seq<u64>,
    c: int,
    n: int,
) -> bool {
    &&& picks.len() == if n <= c {
        n
    } else {
        c
    }
    &&& forall|i: int| 0 <= i < picks.len() ==> 0 <= #[trigger] picks[i] < c
    &&& forall|i: int, j: int|
        0 <= i < j < picks.len() ==> slot_before(
            keys,
            totals,
            #[trigger] picks[i] as int,
            #[trigger] picks[j] as int,
        )
    &&& forall|x: usize|
        x < c && !(#[trigger] picks.contains(x)) ==> picks.len() == n && forall|i: int|
            0 <= i < picks.len() ==> slot_before(
                keys,
                totals,
                #[trigger] picks[i] as int,
                x as int,
            )
}

fn slot_ranks_before(tally: &Tally, x: usize, y: usize) -> (before: bool)
    requires
        tally.wf(),
        x < tally.keys().len(),
        y < tally.keys().len(),
    ensures
        before == slot_before(tally.keys(), tally.values(), x as int, y as int),
{
    let a = *tally.value(x);
    let b = *tally.value(y);
    if a != b {
        a > b
    } else {
        text_before(tally.key(x).as_str(), tally.key(y).as_str())
    }
}

proof fn lemma_place_pick(
    old_picks: Seq<usize>,
    picks: Seq<usize>,
    keys: Seq<Seq<char>>,
    totals: Seq<u64>,
    c: usize,
    n: usize,
    p: int,
)
    requires
        keys.no_duplicates(),
        keys.len() == totals.len(),
        c < keys.len(),
        c < usize::MAX,
        slots_ranked(old_picks, keys, totals, c as int, n as int),
        0 <= p <= old_picks.len(),
        forall|i: int|
            0 <= i < p ==> slot_before(keys, totals, #[trigger] old_picks[i] as int, c as int),
        p < old_picks.len() ==> !slot_before(keys, totals, old_picks[p] as int, c as int),
        picks == (if p >= n {
            old_picks
        } else if old_picks.len() < n {
            old_picks.insert(p, c)
        } else {
            old_picks.insert(p, c).drop_last()
        }),
    ensures
        slots_ranked(picks, keys, totals, c + 1, n as int),
{
    let m = old_picks.len() as int;
    // every pick from place p on ranks after c
    assert forall|i: int| p <= i < m implies slot_before(
        keys,
        totals,
        c as int,
        #[trigger] old_picks[i] as int,
    ) by {
        lemma_slot_before_total(keys, totals, c as int, old_picks[p] as int);
        if i > p {
            lemma_slot_before_transitive(
                keys,
                totals,
                c as int,
                old_picks[p] as int,
                old_picks[i] as int,
            );
        }
    }
    if p >= n {
        assert(m == n);
        assert forall|x: usize| x < c + 1 && !(#[trigger] picks.contains(x)) implies (forall|
            i: int,
        |
            0 <= i < picks.len() ==> slot_before(
                keys,
                totals,
                #[trigger] picks[i] as int,
                x as int,
            )) by {
            if x < c {
                assert(!old_picks.contains(x));
            }
        }
    } else {
        let grown = old_picks.insert(p, c);
        assert forall|i: int, j: int| 0 <= i < j < grown.len() implies slot_before(
            keys,
            totals,
            #[trigger] grown[i] as int,
            #[trigger] grown[j] as int,
        ) by {
            if j < p {
                assert(grown[i] == old_picks[i] && grown[j] == old_picks[j]);
            } else if j == p {
                assert(grown[i] == old_picks[i]);
            } else if i < p {
                assert(grown[i] == old_picks[i] && grown[j] == old_picks[j - 1]);
            } else if i == p {
                assert(grown[j] == old_picks[j - 1]);
            } else {
                assert(grown[i] == old_picks[i - 1] && grown[j] == old_picks[j - 1]);
            }
        }
        assert forall|i: int| 0 <= i < grown.len() implies 0 <= #[trigger] grown[i] < c + 1 by {
            if i < p {
                assert(grown[i] == old_picks[i]);
            } else if i > p {
                assert(grown[i] == old_picks[i - 1]);
            }
        }
        assert(grown[p] == c);
        assert forall|x: usize| x < c && #[trigger] old_picks.contains(x) implies grown.contains(
            x,
        ) by {
            let i = choose|i: int| 0 <= i < m && old_picks[i] == x;
            if i < p {
                assert(grown[i] == x);
            } else {
                assert(grown[i + 1] == x);
            }
        }
        if m < n {
            assert(picks == grown);
            assert forall|x: usize| x < c + 1 implies #[trigger] picks.contains(x) by {
                if x < c {
                    assert(old_picks.contains(x));
                }
            }
        } else {
            assert(m == n);
            let last = grown[m] as int;
            assert(picks =~= grown.drop_last());
            assert forall|i: int| 0 <= i < picks.len() implies picks[i] == grown[i] by {}
            assert forall|x: usize| x < c + 1 && !(#[trigger] picks.contains(x)) implies (forall|
                i: int,
            |
                0 <= i < picks.len() ==> slot_before(
                    keys,
                    totals,
                    #[trigger] picks[i] as int,
                    x as int,
                )) by {
                assert forall|i: int| 0 <= i < picks.len() implies slot_before(
                    keys,
                    totals,
                    #[trigger] picks[i] as int,
                    x as int,
                ) by {
                    assert(picks[i] == grown[i]);
                    if x == last {
                        assert(slot_before(keys, totals, grown[i] as int, grown[m] as int));
                    } else {
                        // x was left out before, or is c itself and was dropped
                        if x == c {
                            assert(grown[p] == c);
                            assert(p < m);
                            assert(picks[p] == grown[p]);
                            assert(picks.contains(c));
                        }
                        if old_picks.contains(x) {
                            let k = choose|k: int| 0 <= k < m && old_picks[k] == x;
                            if k < p {
                                assert(picks[k] == x);
                            } else {
                                assert(grown[k + 1] == x);
                                assert(k + 1 < m);
                                assert(picks[k + 1] == x);
                            }
                            assert(picks.contains(x));
                        }
                        assert(!old_picks.contains(x));
                        // all old picks rank before x; so does c, through the pick it displaced
                        if i < p {
                            assert(grown[i] == old_picks[i]);
                        } else if i == p {
                            assert(slot_before(keys, totals, c as int, old_picks[p] as int));
                            assert(slot_before(keys, totals, old_picks[p] as int, x as int));
                            lemma_slot_before_transitive(
                                keys,
                                totals,
                                c as int,
                                old_picks[p] as int,
                                x as int,
                            );
                        } else {
                            assert(grown[i] == old_picks[i - 1]);
                        }
                    }
                }
            }
        }
    }
}

/// The places of the best `n` keys of `tally`, best first.
fn rank_slots(tally: &Tally, n: usize) -> (picks: Vec<usize>)
    requires
        tally.wf(),
    ensures
        slots_ranked(picks@, tally.keys(), tally.values(), tally.keys().len() as int, n as int),
{
    let mut picks: Vec<usize> = Vec::new();
    let mut c: usize = 0;
    let count = tally.len();
    proof {
        tally.lemma_shape();
    }
    while c < count
        invariant
            tally.wf(),
            count == tally.keys().len(),
            tally.keys().no_duplicates(),
            tally.keys().len() == tally.values().len(),
            c <= count,
            slots_ranked(picks@, tally.keys(), tally.values(), c as int, n as int),
        decreases count - c,
    {
        let mut p: usize = 0;
        while p < picks.len() && slot_ranks_before(tally, picks[p], c)
            invariant
                tally.wf(),
                c < count,
                count == tally.keys().len(),
                p <= picks@.len(),
                forall|i: int| 0 <= i < picks@.len() ==> 0 <= #[trigger] picks@[i] < c,
                forall|i: int|
                    0 <= i < p ==> slot_before(
                        tally.keys(),
                        tally.values(),
                        #[trigger] picks@[i] as int,
                        c as int,
                    ),
            decreases picks@.len() - p,
        {
            p += 1;
        }
        let ghost old_picks = picks@;
        if p < n {
            picks.insert(p, c);
            if picks.len() > n {
                picks.pop();
            }
        }
        proof {
            lemma_place_pick(old_picks, picks@, tally.keys(), tally.values(), c, n, p as int);
        }
        c += 1;
    }
    picks
}

/// The ranking of the best `n` keys of a tally.
pub fn get_top_n(counts: &Tally, n: usize) -> (top: Vec<String>)
    requires
        counts.wf(),
    ensures
        is_ranking(text_views(top@), counts.keys(), counts.values(), n as nat),
{
    let picks = rank_slots(counts, n);
    let count = counts.len();
    let ghost keys = counts.keys();
    let ghost totals = counts.values();
    proof {
        counts.lemma_shape();
    }
    let mut top: Vec<String> = Vec::new();
    let mut i: usize = 0;
    while i < picks.len()
        invariant
            counts.wf(),
            keys == counts.keys(),
            i <= picks@.len(),
            top@.len() == i,
            forall|j: int| 0 <= j < picks@.len() ==> 0 <= #[trigger] picks@[j] < keys.len(),
            forall|j: int| 0 <= j < i ==> (#[trigger] top@[j])@ == keys[picks@[j] as int],
        decreases picks@.len() - i,
    {
        top.push(counts.key(picks[i]).clone());
        i += 1;
    }
    proof {
        let names = text_views(top@);
        assert forall|j: int| 0 <= j < names.len() implies names[j] == keys[picks@[j] as int] by {
            assert(top@[j]@ == keys[picks@[j] as int]);
        }
        assert forall|j: int| 0 <= j < names.len() implies keys.contains(#[trigger] names[j]) by {
            assert(keys[picks@[j] as int] == names[j]);
        }
        assert forall|a: int, b: int| 0 <= a < b < names.len() implies key_before(
            keys,
            totals,
            #[trigger] names[a],
            #[trigger] names[b],
        ) by {
            lemma_score_of(keys, totals, picks@[a] as int);
            lemma_score_of(keys, totals, picks@[b] as int);
            assert(slot_before(keys, totals, picks@[a] as int, picks@[b] as int));
        }
        assert forall|k: int, a: int|
            0 <= k < keys.len() && 0 <= a < names.len() && !names.contains(
                keys[k],
            ) implies key_before(keys, totals, #[trigger] names[a], #[trigger] keys[k]) by {
            if picks@.contains(k as usize) {
                let j = choose|j: int| 0 <= j < picks@.len() && picks@[j] == k as usize;
                assert(names[j] == keys[k]);
            }
            assert(!picks@.contains(k as usize));
            lemma_score_of(keys, totals, picks@[a] as int);
            lemma_score_of(keys, totals, k);
            assert(slot_before(keys, totals, picks@[a] as int, (k as usize) as int));
        }
    }
    top
}

// ---------------------------------------------------------------------
// A ranking is determined by the totals
// ---------------------------------------------------------------------

proof fn lemma_rank_mismatch(
    first: Seq<Seq<char>>,
    second: Seq<Seq<char>>,
    keys: Seq<Seq<char>>,
    totals: Seq<u64>,
    n: nat,
    j: int,
)
    requires
        is_ranking(first, keys, totals, n),
        is_ranking(second, keys, totals, n),
        0 <= j < first.len(),
        forall|i: int| 0 <= i < j ==> first[i] == second[i],
    ensures
        !key_before(keys, totals, first[j], second[j]),
{
    let a = first[j];
    let b = second[j];
    if key_before(keys, totals, a, b) {
        assert(keys.contains(a));
        if key_before(keys, totals, b, a) {
            if score_of(keys, totals, a) == score_of(keys, totals, b) {
                lemma_text_lt_asymmetric(a, b);
            }
        }
        assert(!key_before(keys, totals, b, a));
        lemma_text_lt_irreflexive(a);
        if second.contains(a) {
            let m = choose|m: int| 0 <= m < second.len() && second[m] == a;
            if m < j {
                assert(first[m] == second[m]);
                assert(key_before(keys, totals, first[m], first[j]));
            } else if m > j {
                assert(key_before(keys, totals, second[j], second[m]));
            }
        } else {
            let k = choose|k: int| 0 <= k < keys.len() && keys[k] == a;
            assert(key_before(keys, totals, second[j], keys[k]));
        }
    }
}

proof fn lemma_ranking_unique_upto(
    first: Seq<Seq<char>>,
    second: Seq<Seq<char>>,
    keys: Seq<Seq<char>>,
    totals: Seq<u64>,
    n: nat,
    j: int,
)
    requires
        is_ranking(first, keys, totals, n),
        is_ranking(second, keys, totals, n),
        0 <= j <= first.len(),
    ensures
        forall|i: int| 0 <= i < j ==> first[i] == second[i],
    decreases j,
{
    if j > 0 {
        lemma_ranking_unique_upto(first, second, keys, totals, n, j - 1);
        let a = first[j - 1];
        let b = second[j - 1];
        if a != b {
            lemma_text_lt_total(a, b);
            lemma_rank_mismatch(first, second, keys, totals, n, j - 1);
            lemma_rank_mismatch(second, first, keys, totals, n, j - 1);
        }
    }
}

/// Totals determine their ranking: two rankings of the same keys and totals
/// are the same list, ties included.
pub proof fn lemma_ranking_unique(
    first: Seq<Seq<char>>,
    second: Seq<Seq<char>>,
    keys: Seq<Seq<char>>,
    totals: Seq<u64>,
    n: nat,
)
    requires
        is_ranking(first, keys, totals, n),
        is_ranking(second, keys, totals, n),
    ensures
        first == second,
{
    lemma_ranking_unique_upto(first, second, keys, totals, n, first.len() as int);
    assert(first =~= second);
}

/// A ranking never has more than `n` entries.
pub proof fn lemma_ranking_capped(
    top: Seq<Seq<char>>,
    keys: Seq<Seq<char>>,
    totals: Seq<u64>,
    n: nat,
)
    requires
        is_ranking(top, keys, totals, n),
    ensures
        top.len() <= n,
        top.len() <= keys.len(),
{
}

} // verus!
