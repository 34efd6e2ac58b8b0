//! Tables keyed by text. A table keeps its keys in the order in which they
//! were first inserted, one value per key, and finds a key through a hash
//! index.

use crate::text::text_views;
use fnv::FnvBuildHasher;
use std::collections::HashMap;
use vstd::prelude::*;

verus! {

#[verifier::external_type_specification]
#[verifier::external_body]
pub struct ExFnvHasher(fnv::FnvHasher);

#[verifier::external_type_specification]
#[verifier::external_body]
#[verifier::reject_recursive_types(H)]
pub struct ExBuildHasherDefault<H>(std::hash::BuildHasherDefault<H>);

/// What a hash index holds: the slot recorded for each key.
pub uninterp spec fn index_entries(index: HashMap<String, usize, FnvBuildHasher>) -> Map<
    Seq<char>,
    usize,
>;

/// Calls `HashMap::default` with the FNV hasher. Trusted: the new index holds
/// no key.
#[verifier::external_body]
fn index_new() -> (index: HashMap<String, usize, FnvBuildHasher>)
    ensures
        forall|key: Seq<char>| !index_entries(index).contains_key(key),
{
    HashMap::default()
}

/// Calls `HashMap::get`. Trusted: the slot recorded for `key`, if any.
#[verifier::external_body]
fn index_get(index: &HashMap<String, usize, FnvBuildHasher>, key: &str) -> (slot: Option<usize>)
    ensures
        slot == (if index_entries(*index).contains_key(key@) {
            Some(index_entries(*index)[key@])
        } else {
            None::<usize>
        }),
{
    index.get(key).copied()
}

/// Calls `HashMap::insert`. Trusted: afterwards `key` is recorded with `slot`
/// and every other key is as before.
#[verifier::external_body]
fn index_insert(index: &mut HashMap<String, usize, FnvBuildHasher>, key: String, slot: usize)
    ensures
        index_entries(*final(index)) == index_entries(*old(index)).insert(key@, slot),
{
    index.insert(key, slot);
}

/// A table from text keys to values of type `V`.
#[derive(Clone, Debug)]
pub struct KeyedTable<V> {
    names: Vec<String>,
    items: Vec<V>,
    index: HashMap<String, usize, FnvBuildHasher>,
}

impl<V> KeyedTable<V> {
    /// The keys, in the order of their insertion.
    pub closed spec fn keys(&self) -> Seq<Seq<char>> {
        text_views(self.names@)
    }

    /// The values, each at the position of its key.
    pub closed spec fn values(&self) -> Seq<V> {
        self.items@
    }

    /// The index agrees with the list of keys.
    pub closed spec fn wf(&self) -> bool {
        &&& self.names.len() == self.items.len()
        &&& forall|i: int|
            0 <= i < self.names.len() ==> index_entries(self.index).contains_key(
                #[trigger] self.names[i]@,
            ) && index_entries(self.index)[self.names[i]@] == i
        &&& forall|key: Seq<char>| #[trigger]
            index_entries(self.index).contains_key(key) ==> index_entries(self.index)[key]
                < self.names.len() && self.names[index_entries(self.index)[key] as int]@ == key
    }

    /// A well-formed table has one value per key and no key twice.
    pub proof fn lemma_shape(&self)
        requires
            self.wf(),
        ensures
            self.keys().len() == self.values().len(),
            self.keys().no_duplicates(),
    {
        assert forall|i: int, j: int|
            0 <= i < self.keys().len() && 0 <= j < self.keys().len() && i != j implies self.keys()[i]
            != self.keys()[j] by {
            assert(index_entries(self.index)[self.names[i]@] == i);
            assert(index_entries(self.index)[self.names[j]@] == j);
        }
    }

    /// The empty table.
    pub fn new() -> (table: Self)
        ensures
            table.wf(),
            table.keys() == Seq::<Seq<char>>::empty(),
            table.values() == Seq::<V>::empty(),
    {
        let table = KeyedTable { names: Vec::new(), items: Vec::new(), index: index_new() };
        assert(table.keys() =~= Seq::<Seq<char>>::empty());
        table
    }

    /// The number of keys.
    pub fn len(&self) -> (n: usize)
        requires
            self.wf(),
        ensures
            n == self.keys().len(),
            n == self.values().len(),
    {
        self.names.len()
    }

    /// The position of `key`, if the table holds it.
    pub fn position(&self, key: &str) -> (slot: Option<usize>)
        requires
            self.wf(),
        ensures
            match slot {
                Some(i) => i < self.keys().len() && self.keys()[i as int] == key@,
                None => !self.keys().contains(key@),
            },
    {
        let slot = index_get(&self.index, key);
        proof {
            if slot is None && self.keys().contains(key@) {
                let i = choose|i: int| 0 <= i < self.keys().len() && self.keys()[i] == key@;
                assert(self.names[i]@ == key@);
            }
        }
        slot
    }

    /// The key at position `i`.
    pub fn key(&self, i: usize) -> (name: &String)
        requires
            self.wf(),
            i < self.keys().len(),
        ensures
            name@ == self.keys()[i as int],
    {
        &self.names[i]
    }

    /// The value at position `i`.
    pub fn value(&self, i: usize) -> (item: &V)
        requires
            self.wf(),
            i < self.keys().len(),
        ensures
            *item == self.values()[i as int],
    {
        &self.items[i]
    }

    /// The value stored for `key`, if the table holds it.
    pub open spec fn lookup(&self, key: Seq<char>) -> Option<V> {
        if self.keys().contains(key) {
            Some(self.values()[self.keys().index_of(key)])
        } else {
            None
        }
    }

    /// In a well-formed table the value of the key at place `i` stands at
    /// place `i`.
    pub proof fn lemma_lookup(&self, i: int)
        requires
            self.wf(),
            0 <= i < self.keys().len(),
        ensures
            self.lookup(self.keys()[i]) == Some(self.values()[i]),
    {
        self.lemma_shape();
        let j = self.keys().index_of(self.keys()[i]);
        assert(self.keys().contains(self.keys()[i]));
        assert(0 <= j < self.keys().len() && self.keys()[j] == self.keys()[i]);
    }

    /// The value stored for `key`, if the table holds it.
    pub fn get(&self, key: &str) -> (item: Option<&V>)
        requires
            self.wf(),
        ensures
            match item {
                Some(v) => self.lookup(key@) == Some(*v),
                None => self.lookup(key@) is None,
            },
    {
        match self.position(key) {
            Some(i) => {
                proof {
                    self.lemma_lookup(i as int);
                }
                Some(&self.items[i])
            },
            None => None,
        }
    }

    /// Appends a key that the table does not hold yet, with its value.
    pub fn insert(&mut self, key: String, item: V)
        requires
            old(self).wf(),
            !old(self).keys().contains(key@),
        ensures
            final(self).wf(),
            final(self).keys() == old(self).keys().push(key@),
            final(self).values() == old(self).values().push(item),
    {
        let slot = self.names.len();
        let ghost before = index_entries(self.index);
        let ghost old_names = self.names@;
        index_insert(&mut self.index, key.clone(), slot);
        self.names.push(key);
        self.items.push(item);
        proof {
            assert(self.keys() =~= old(self).keys().push(key@));
            assert forall|i: int| 0 <= i < self.names.len() implies index_entries(
                self.index,
            ).contains_key(#[trigger] self.names[i]@) && index_entries(self.index)[self.names[i]@]
                == i by {
                if i < old_names.len() {
                    assert(old_names[i]@ == old(self).keys()[i]);
                    assert(before.contains_key(old_names[i]@));
                }
            }
            assert forall|k: Seq<char>| #[trigger]
                index_entries(self.index).contains_key(k) implies index_entries(self.index)[k]
                < self.names.len() && self.names[index_entries(self.index)[k] as int]@ == k by {
                if k != key@ {
                    assert(before.contains_key(k));
                }
            }
        }
    }

    /// Replaces the value at position `i`.
    pub fn set(&mut self, i: usize, item: V)
        requires
            old(self).wf(),
            i < old(self).keys().len(),
        ensures
            final(self).wf(),
            final(self).keys() == old(self).keys(),
            final(self).values() == old(self).values().update(i as int, item),
    {
        self.items[i] = item;
    }
}

/// The sum of two amounts, held at the largest 64-bit number.
pub open spec fn capped_sum(a: u64, b: u64) -> u64 {
    if a + b > u64::MAX {
        u64::MAX
    } else {
        (a + b) as u64
    }
}

/// A table of running totals.
pub type Tally = KeyedTable<u64>;

impl KeyedTable<u64> {
    /// Adds `amount` to the total of `key`, which starts at zero. Totals stop
    /// growing at the largest 64-bit number. Returns the position of `key`.
    pub fn add(&mut self, key: &str, amount: u64) -> (slot: usize)
        requires
            old(self).wf(),
        ensures
            final(self).wf(),
            slot < final(self).keys().len(),
            final(self).keys()[slot as int] == key@,
            slot < old(self).keys().len() ==> {
                &&& final(self).keys() == old(self).keys()
                &&& final(self).values() == old(self).values().update(
                    slot as int,
                    capped_sum(old(self).values()[slot as int], amount),
                )
            },
            slot >= old(self).keys().len() ==> {
                &&& slot == old(self).keys().len()
                &&& !old(self).keys().contains(key@)
                &&& final(self).keys() == old(self).keys().push(key@)
                &&& final(self).values() == old(self).values().push(amount)
            },
    {
        match self.position(key) {
            Some(i) => {
                let total = self.items[i].saturating_add(amount);
                self.set(i, total);
                i
            },
            None => {
                let slot = self.names.len();
                self.insert(key.to_owned(), amount);
                slot
            },
        }
    }
}

} // verus!
