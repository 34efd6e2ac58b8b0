//! Counting amounts under keys: what a tally holds after a run of postings.

use crate::table::{capped_sum, Tally};
use vstd::prelude::*;

verus! {

/// An amount counted under a key.
pub struct Posting {
    pub key: Seq<char>,
    pub amount: u64,
}

/// The keys of a run of postings, one per posting.
pub open spec fn posting_keys(postings: Seq<Posting>) -> Seq<Seq<char>> {
    Seq::new(postings.len(), |i: int| postings[i].key)
}

/// The different texts of `s`, each at the place of its first occurrence.
pub open spec fn distinct(s: Seq<Seq<char>>) -> Seq<Seq<char>>
    decreases s.len(),
{
    if s.len() == 0 {
        Seq::empty()
    } else {
        let front = distinct(s.drop_last());
        if front.contains(s.last()) {
            front
        } else {
            front.push(s.last())
        }
    }
}

/// The sum of the amounts posted under `key`.
pub open spec fn sum_for(postings: Seq<Posting>, key: Seq<char>) -> nat
    decreases postings.len(),
{
    if postings.len() == 0 {
        0
    } else {
        sum_for(postings.drop_last(), key) + if postings.last().key == key {
            postings.last().amount as nat
        } else {
            0
        }
    }
}

/// A sum as a tally holds it: never more than the largest 64-bit number.
pub open spec fn capped(total: nat) -> u64 {
    if total > u64::MAX {
        u64::MAX
    } else {
        total as u64
    }
}

/// The total that a tally holds for `key` after `postings`.
pub open spec fn total_for(postings: Seq<Posting>, key: Seq<char>) -> u64 {
    capped(sum_for(postings, key))
}

/// The keys of a tally after `postings`.
pub open spec fn tally_keys(postings: Seq<Posting>) -> Seq<Seq<char>> {
    distinct(posting_keys(postings))
}

/// The totals of a tally after `postings`, each at the place of its key.
pub open spec fn tally_totals(postings: Seq<Posting>) -> Seq<u64> {
    Seq::new(tally_keys(postings).len(), |i: int| total_for(postings, tally_keys(postings)[i]))
}

/// `distinct` keeps exactly the texts of `s`, each once.
pub proof fn lemma_distinct(s: Seq<Seq<char>>)
    ensures
        distinct(s).no_duplicates(),
        distinct(s).len() <= s.len(),
        forall|key: Seq<char>| distinct(s).contains(key) <==> s.contains(key),
    decreases s.len(),
{
    if s.len() > 0 {
        let front = s.drop_last();
        lemma_distinct(front);
        assert forall|key: Seq<char>| distinct(s).contains(key) <==> s.contains(key) by {
            if s.contains(key) {
                let i = choose|i: int| 0 <= i < s.len() && s[i] == key;
                if i < front.len() {
                    assert(front[i] == key);
                    assert(front.contains(key));
                    assert(distinct(front).contains(key));
                    if !distinct(front).contains(s.last()) {
                        let j = choose|j: int|
                            0 <= j < distinct(front).len() && distinct(front)[j] == key;
                        assert(distinct(s)[j] == key);
                    }
                } else {
                    if !distinct(front).contains(s.last()) {
                        assert(distinct(s)[distinct(front).len() as int] == key);
                    }
                }
            }
            if distinct(s).contains(key) {
                let j = choose|j: int| 0 <= j < distinct(s).len() && distinct(s)[j] == key;
                if j < distinct(front).len() {
                    assert(distinct(front)[j] == key);
                    assert(front.contains(key));
                    let i = choose|i: int| 0 <= i < front.len() && front[i] == key;
                    assert(s[i] == key);
                } else {
                    assert(s[s.len() - 1] == key);
                }
            }
        }
    }
}

/// No amount is posted under a key that no posting names.
pub proof fn lemma_sum_for_absent(postings: Seq<Posting>, key: Seq<char>)
    requires
        !posting_keys(postings).contains(key),
    ensures
        sum_for(postings, key) == 0,
    decreases postings.len(),
{
    if postings.len() > 0 {
        let front = postings.drop_last();
        assert(posting_keys(postings)[postings.len() - 1] == postings.last().key);
        assert forall|i: int| 0 <= i < front.len() implies posting_keys(front)[i] != key by {
            assert(posting_keys(postings)[i] == front[i].key);
        }
        lemma_sum_for_absent(front, key);
    }
}

/// What one more posting does to the keys and totals of a tally.
pub proof fn lemma_tally_push(postings: Seq<Posting>, next: Posting)
    ensures
        posting_keys(postings.push(next)) == posting_keys(postings).push(next.key),
        tally_keys(postings.push(next)) == (if tally_keys(postings).contains(next.key) {
            tally_keys(postings)
        } else {
            tally_keys(postings).push(next.key)
        }),
        forall|key: Seq<char>|
            total_for(postings.push(next), key) == (if key == next.key {
                capped_sum(total_for(postings, key), next.amount)
            } else {
                total_for(postings, key)
            }),
{
    let after = postings.push(next);
    assert(after.drop_last() =~= postings);
    assert(posting_keys(after) =~= posting_keys(postings).push(next.key));
    assert(posting_keys(after).drop_last() =~= posting_keys(postings));
}

/// A tally that has counted `postings`, and then counts one more, has counted
/// them all.
pub proof fn lemma_tally_step(
    postings: Seq<Posting>,
    next: Posting,
    keys: Seq<Seq<char>>,
    totals: Seq<u64>,
    slot: int,
    new_keys: Seq<Seq<char>>,
    new_totals: Seq<u64>,
)
    requires
        keys == tally_keys(postings),
        totals == tally_totals(postings),
        0 <= slot < new_keys.len(),
        new_keys[slot] == next.key,
        slot < keys.len() ==> new_keys == keys && new_totals == totals.update(
            slot,
            capped_sum(totals[slot], next.amount),
        ),
        slot >= keys.len() ==> slot == keys.len() && !keys.contains(next.key) && new_keys
            == keys.push(next.key) && new_totals == totals.push(next.amount),
    ensures
        new_keys == tally_keys(postings.push(next)),
        new_totals == tally_totals(postings.push(next)),
{
    let after = postings.push(next);
    lemma_tally_push(postings, next);
    lemma_distinct(posting_keys(postings));
    if slot < keys.len() {
        assert(keys.contains(next.key));
        assert forall|i: int| 0 <= i < new_totals.len() implies new_totals[i] == tally_totals(
            after,
        )[i] by {
            if i != slot {
                assert(keys[i] != keys[slot]);
            }
        }
    } else {
        lemma_sum_for_absent(postings, next.key);
        assert forall|i: int| 0 <= i < new_totals.len() implies new_totals[i] == tally_totals(
            after,
        )[i] by {
            if i < keys.len() {
                assert(keys.contains(keys[i]));
            }
        }
    }
    assert(new_totals =~= tally_totals(after));
}

/// Whether `tally` holds exactly what `postings` add up to.
pub open spec fn tallies(tally: &Tally, postings: Seq<Posting>) -> bool {
    &&& tally.wf()
    &&& tally.keys() == tally_keys(postings)
    &&& tally.values() == tally_totals(postings)
}

/// A tally that has counted nothing.
pub fn new_tally() -> (tally: Tally)
    ensures
        tallies(&tally, Seq::empty()),
{
    let tally = Tally::new();
    assert(tally.values() =~= tally_totals(Seq::<Posting>::empty()));
    tally
}

/// Counts one more posting.
pub(crate) fn post(tally: &mut Tally, key: &str, amount: u64, Ghost(postings): Ghost<Seq<Posting>>)
    requires
        tallies(old(tally), postings),
    ensures
        tallies(final(tally), postings.push(Posting { key: key@, amount })),
{
    let ghost keys = tally.keys();
    let ghost totals = tally.values();
    let slot = tally.add(key, amount);
    proof {
        lemma_tally_step(
            postings,
            Posting { key: key@, amount },
            keys,
            totals,
            slot as int,
            tally.keys(),
            tally.values(),
        );
    }
}

} // verus!
