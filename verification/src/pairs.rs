//! Counters for ordered pairs of places, and the counting of the pairs that
//! can be made from a list of different places. The counters are the cells
//! of a hash map.

use fnv::FnvBuildHasher;
use std::collections::HashMap;
use vstd::prelude::*;

verus! {

/// What a map of cells holds: the number stored in each cell that was
/// written.
pub uninterp spec fn cell_entries(cells: HashMap<u128, u64, FnvBuildHasher>) -> Map<u128, u64>;

/// Calls `HashMap::default` with the FNV hasher. Trusted: no cell of the new
/// map was written.
#[verifier::external_body]
pub(crate) fn cells_new() -> (cells: HashMap<u128, u64, FnvBuildHasher>)
    ensures
        forall|cell: u128| !cell_entries(cells).contains_key(cell),
{
    HashMap::default()
}

/// Calls `HashMap::get`. Trusted: the number stored in `cell`, if it was
/// written.
#[verifier::external_body]
pub(crate) fn cells_get(cells: &HashMap<u128, u64, FnvBuildHasher>, cell: u128) -> (held: Option<
    u64,
>)
    ensures
        held == (if cell_entries(*cells).contains_key(cell) {
            Some(cell_entries(*cells)[cell])
        } else {
            None::<u64>
        }),
{
    cells.get(&cell).copied()
}

/// Calls `HashMap::insert`. Trusted: afterwards `cell` holds `number` and
/// every other cell is as before.
#[verifier::external_body]
pub(crate) fn cells_insert(
    cells: &mut HashMap<u128, u64, FnvBuildHasher>,
    cell: u128,
    number: u64,
)
    ensures
        cell_entries(*final(cells)) == cell_entries(*old(cells)).insert(cell, number),
{
    cells.insert(cell, number);
}

/// One counter for each ordered pair of places; a pair never counted stands
/// at zero.
pub struct PairCounts {
    cells: HashMap<u128, u64, FnvBuildHasher>,
}

/// The cell of the pair `(a, b)`.
pub open spec fn pair_code(a: usize, b: usize) -> u128 {
    (a as int * 0x1_0000_0000_0000_0000 + b as int) as u128
}

proof fn lemma_pair_code_injective(a: usize, b: usize, x: usize, y: usize)
    requires
        pair_code(a, b) == pair_code(x, y),
    ensures
        a == x,
        b == y,
{
    let c = 0x1_0000_0000_0000_0000int;
    assert(a as int * c + b as int == x as int * c + y as int);
    if a < x {
        assert((x as int - a as int) * c >= c) by (nonlinear_arith)
            requires
                x as int - a as int >= 1,
                c > 0,
        ;
        assert(x as int * c - a as int * c == (x as int - a as int) * c) by (nonlinear_arith);
    }
    if x < a {
        assert((a as int - x as int) * c >= c) by (nonlinear_arith)
            requires
                a as int - x as int >= 1,
                c > 0,
        ;
        assert(a as int * c - x as int * c == (a as int - x as int) * c) by (nonlinear_arith);
    }
}

impl PairCounts {
    /// The count of the pair `(a, b)`.
    pub closed spec fn count(&self, a: usize, b: usize) -> u64 {
        if cell_entries(self.cells).contains_key(pair_code(a, b)) {
            cell_entries(self.cells)[pair_code(a, b)]
        } else {
            0
        }
    }

    /// Counters that all stand at zero.
    pub fn new() -> (counts: PairCounts)
        ensures
            forall|a: usize, b: usize| counts.count(a, b) == 0,
    {
        PairCounts { cells: cells_new() }
    }

    fn code(a: usize, b: usize) -> (code: u128)
        ensures
            code == pair_code(a, b),
    {
        (a as u128) * 0x1_0000_0000_0000_0000u128 + (b as u128)
    }

    /// Reads the count of the pair `(a, b)`.
    pub fn get(&self, a: usize, b: usize) -> (count: u64)
        ensures
            count == self.count(a, b),
    {
        let code = Self::code(a, b);
        match cells_get(&self.cells, code) {
            Some(count) => count,
            None => 0,
        }
    }

    /// Adds one to the count of the pair `(a, b)`.
    pub fn bump(&mut self, a: usize, b: usize)
        requires
            old(self).count(a, b) < u64::MAX,
        ensures
            final(self).count(a, b) == old(self).count(a, b) + 1,
            forall|x: usize, y: usize|
                (x != a || y != b) ==> final(self).count(x, y) == old(self).count(x, y),
    {
        let code = Self::code(a, b);
        let count = self.get(a, b);
        cells_insert(&mut self.cells, code, count + 1);
        proof {
            assert forall|x: usize, y: usize| (x != a || y != b) implies self.count(x, y) == old(
                self,
            ).count(x, y) by {
                if pair_code(x, y) == pair_code(a, b) {
                    lemma_pair_code_injective(x, y, a, b);
                }
            }
        }
    }
}

/// Whether the pair of places `a` and `b` has been counted when the pairs of
/// `places` are taken in order and the pair at positions `(x, y)` is next.
pub open spec fn pair_done(places: Seq<usize>, x: int, y: int, a: usize, b: usize) -> bool {
    exists|p: int, q: int|
        0 <= p < q < places.len() && (p < x || (p == x && q < y)) && ((#[trigger] places[p] == a
            && #[trigger] places[q] == b) || (places[p] == b && places[q] == a))
}

proof fn lemma_pair_step(places: Seq<usize>, x: int, y: int, a: usize, b: usize)
    requires
        places.no_duplicates(),
        0 <= x < y < places.len(),
    ensures
        pair_done(places, x, y + 1, a, b) == (pair_done(places, x, y, a, b) || (places[x] == a
            && places[y] == b) || (places[x] == b && places[y] == a)),
        (places[x] == a && places[y] == b) || (places[x] == b && places[y] == a) ==> !pair_done(
            places,
            x,
            y,
            a,
            b,
        ),
{
    let hit = (places[x] == a && places[y] == b) || (places[x] == b && places[y] == a);
    if pair_done(places, x, y, a, b) {
        let (p, q) = choose|p: int, q: int|
            0 <= p < q < places.len() && (p < x || (p == x && q < y)) && ((#[trigger] places[p] == a
                && #[trigger] places[q] == b) || (places[p] == b && places[q] == a));
        assert(0 <= p < q < places.len() && (p < x || (p == x && q < y + 1)) && ((places[p] == a
            && places[q] == b) || (places[p] == b && places[q] == a)));
        if hit {
            assert(p == x || p == y);
            assert(q == x || q == y);
        }
    }
    if hit {
        assert(0 <= x < y < places.len() && (x < x || (x == x && y < y + 1)) && ((places[x] == a
            && places[y] == b) || (places[x] == b && places[y] == a)));
    }
    if pair_done(places, x, y + 1, a, b) && !hit {
        let (p, q) = choose|p: int, q: int|
            0 <= p < q < places.len() && (p < x || (p == x && q < y + 1)) && ((#[trigger] places[p]
                == a && #[trigger] places[q] == b) || (places[p] == b && places[q] == a));
        assert(0 <= p < q < places.len() && (p < x || (p == x && q < y)) && ((places[p] == a
            && places[q] == b) || (places[p] == b && places[q] == a)));
    }
}

proof fn lemma_pair_row(places: Seq<usize>, x: int, a: usize, b: usize)
    requires
        0 <= x < places.len(),
    ensures
        pair_done(places, x, places.len() as int, a, b) == pair_done(places, x + 1, 0, a, b),
        pair_done(places, x, x + 1, a, b) == pair_done(places, x, 0, a, b),
{
    if pair_done(places, x, places.len() as int, a, b) {
        let (p, q) = choose|p: int, q: int|
            0 <= p < q < places.len() && (p < x || (p == x && q < places.len())) && ((
            #[trigger] places[p] == a && #[trigger] places[q] == b) || (places[p] == b && places[q]
                == a));
        assert(0 <= p < q < places.len() && (p < x + 1 || (p == x + 1 && q < 0)) && ((places[p]
            == a && places[q] == b) || (places[p] == b && places[q] == a)));
    }
    if pair_done(places, x + 1, 0, a, b) {
        let (p, q) = choose|p: int, q: int|
            0 <= p < q < places.len() && (p < x + 1 || (p == x + 1 && q < 0)) && ((
            #[trigger] places[p] == a && #[trigger] places[q] == b) || (places[p] == b && places[q]
                == a));
        assert(0 <= p < q < places.len() && (p < x || (p == x && q < places.len())) && ((places[p]
            == a && places[q] == b) || (places[p] == b && places[q] == a)));
    }
    if pair_done(places, x, x + 1, a, b) {
        let (p, q) = choose|p: int, q: int|
            0 <= p < q < places.len() && (p < x || (p == x && q < x + 1)) && ((#[trigger] places[p]
                == a && #[trigger] places[q] == b) || (places[p] == b && places[q] == a));
        assert(0 <= p < q < places.len() && (p < x || (p == x && q < 0)) && ((places[p] == a
            && places[q] == b) || (places[p] == b && places[q] == a)));
    }
    if pair_done(places, x, 0, a, b) {
        let (p, q) = choose|p: int, q: int|
            0 <= p < q < places.len() && (p < x || (p == x && q < 0)) && ((#[trigger] places[p] == a
                && #[trigger] places[q] == b) || (places[p] == b && places[q] == a));
        assert(0 <= p < q < places.len() && (p < x || (p == x && q < x + 1)) && ((places[p] == a
            && places[q] == b) || (places[p] == b && places[q] == a)));
    }
}

proof fn lemma_pair_all(places: Seq<usize>, a: usize, b: usize)
    requires
        places.no_duplicates(),
    ensures
        pair_done(places, places.len() as int, 0, a, b) == (a != b && places.contains(a)
            && places.contains(b)),
        !pair_done(places, 0, 0, a, b),
{
    let n = places.len() as int;
    if pair_done(places, n, 0, a, b) {
        let (p, q) = choose|p: int, q: int|
            0 <= p < q < places.len() && (p < n || (p == n && q < 0)) && ((#[trigger] places[p] == a
                && #[trigger] places[q] == b) || (places[p] == b && places[q] == a));
        assert(places.contains(a) && places.contains(b));
    }
    if a != b && places.contains(a) && places.contains(b) {
        let p = choose|p: int| 0 <= p < places.len() && places[p] == a;
        let q = choose|q: int| 0 <= q < places.len() && places[q] == b;
        if p < q {
            assert(0 <= p < q < places.len() && (p < n || (p == n && q < 0)) && ((places[p] == a
                && places[q] == b) || (places[p] == b && places[q] == a)));
        } else {
            assert(0 <= q < p < places.len() && (q < n || (q == n && p < 0)) && ((places[q] == a
                && places[p] == b) || (places[q] == b && places[p] == a)));
        }
    }
}

/// Adds one to the count of every ordered pair of two different places of
/// `places`.
pub fn count_pairs(counts: &mut PairCounts, places: &Vec<usize>)
    requires
        places@.no_duplicates(),
        forall|a: usize, b: usize| old(counts).count(a, b) < u64::MAX,
    ensures
        forall|a: usize, b: usize|
            #[trigger] final(counts).count(a, b) == old(counts).count(a, b) + (if a != b
                && places@.contains(a) && places@.contains(b) {
                1int
            } else {
                0int
            }),
{
    let n = places.len();
    let mut x: usize = 0;
    proof {
        assert forall|a: usize, b: usize| !pair_done(places@, 0, 0, a, b) by {
            lemma_pair_all(places@, a, b);
        }
    }
    while x < n
        invariant
            x <= n,
            n == places@.len(),
            places@.no_duplicates(),
            forall|a: usize, b: usize| old(counts).count(a, b) < u64::MAX,
            forall|a: usize, b: usize|
                #[trigger] counts.count(a, b) == old(counts).count(a, b) + (if pair_done(
                    places@,
                    x as int,
                    0,
                    a,
                    b,
                ) {
                    1int
                } else {
                    0int
                }),
        decreases n - x,
    {
        let mut y: usize = x + 1;
        proof {
            assert forall|a: usize, b: usize|
                pair_done(places@, x as int, x + 1, a, b) == pair_done(
                    places@,
                    x as int,
                    0,
                    a,
                    b,
                ) by {
                lemma_pair_row(places@, x as int, a, b);
            }
        }
        while y < n
            invariant
                x < n,
                x < y <= n,
                n == places@.len(),
                places@.no_duplicates(),
                forall|a: usize, b: usize| old(counts).count(a, b) < u64::MAX,
                forall|a: usize, b: usize|
                    #[trigger] counts.count(a, b) == old(counts).count(a, b) + (if pair_done(
                        places@,
                        x as int,
                        y as int,
                        a,
                        b,
                    ) {
                        1int
                    } else {
                        0int
                    }),
            decreases n - y,
        {
            let left = places[x];
            let right = places[y];
            let ghost before = *counts;
            proof {
                lemma_pair_step(places@, x as int, y as int, left, right);
                lemma_pair_step(places@, x as int, y as int, right, left);
                assert(left != right);
                assert(counts.count(left, right) == old(counts).count(left, right));
                assert(counts.count(right, left) == old(counts).count(right, left));
            }
            counts.bump(left, right);
            counts.bump(right, left);
            proof {
                assert forall|a: usize, b: usize|
                    #[trigger] counts.count(a, b) == old(counts).count(a, b) + (if pair_done(
                        places@,
                        x as int,
                        y + 1,
                        a,
                        b,
                    ) {
                        1int
                    } else {
                        0int
                    }) by {
                    lemma_pair_step(places@, x as int, y as int, a, b);
                    assert(before.count(a, b) == old(counts).count(a, b) + (if pair_done(
                        places@,
                        x as int,
                        y as int,
                        a,
                        b,
                    ) {
                        1int
                    } else {
                        0int
                    }));
                }
            }
            y += 1;
        }
        proof {
            assert forall|a: usize, b: usize|
                pair_done(places@, x as int, n as int, a, b) == pair_done(
                    places@,
                    x + 1,
                    0,
                    a,
                    b,
                ) by {
                lemma_pair_row(places@, x as int, a, b);
            }
        }
        x += 1;
    }
    proof {
        assert forall|a: usize, b: usize|
            #[trigger] counts.count(a, b) == old(counts).count(a, b) + (if a != b
                && places@.contains(a) && places@.contains(b) {
                1int
            } else {
                0int
            }) by {
            lemma_pair_all(places@, a, b);
        }
    }
}

} // verus!
