//! A set that counts how often each value was put into it.

use std::collections::HashMap;
use std::hash::Hash;
use vstd::multiset::Multiset;
use vstd::prelude::*;
use vstd::std_specs::hash::obeys_key_model;

verus! {

broadcast use {vstd::std_specs::hash::group_hash_axioms, vstd::multiset::group_multiset_axioms};

/// A multiset: a set that keeps, for each value, the number of times the
/// value was inserted and not yet removed.
#[derive(Clone, PartialEq, Eq, Debug)]
pub struct CounterSet<T: Eq + Hash> {
    /// The values with their counts; no count is zero.
    map: HashMap<T, usize>,
    /// The sum of all counts.
    length: usize,
}

/// The counts of a map, as natural numbers.
pub open spec fn counts_of<T>(map: Map<T, usize>) -> Map<T, nat> {
    Map::new(|value: T| map.contains_key(value), |value: T| map[value] as nat)
}

/// The multiset of a map of counts holds each value as often as the map says.
pub proof fn lemma_counts_of<T>(map: Map<T, usize>, value: T)
    requires
        map.dom().finite(),
    ensures
        Multiset::from_map(counts_of(map)).count(value) == if map.contains_key(value) {
            map[value] as nat
        } else {
            0nat
        },
{
    assert(counts_of(map).dom() =~= map.dom());
}

/// A multiset holds at least as many values as it holds different values,
/// and more exactly when it holds some value more than once.
pub proof fn lemma_duplicates<T>(held: Multiset<T>)
    ensures
        held.len() >= held.dom().len(),
        held.len() != held.dom().len() <==> exists|value: T| #[trigger] held.count(value) > 1,
    decreases held.len(),
{
    if held.len() == 0 {
        assert(held =~= Multiset::<T>::empty());
        assert(held.dom() =~= Set::<T>::empty());
    } else {
        let x = held.choose();
        let rest = held.remove(x);
        lemma_duplicates(rest);
        if held.count(x) == 1 {
            assert(rest.dom() =~= held.dom().remove(x));
            if exists|value: T| #[trigger] held.count(value) > 1 {
                let v = choose|value: T| #[trigger] held.count(value) > 1;
                assert(rest.count(v) > 1);
            }
            if exists|value: T| #[trigger] rest.count(value) > 1 {
                let v = choose|value: T| #[trigger] rest.count(value) > 1;
                assert(held.count(v) > 1);
            }
        } else {
            assert(rest.dom() =~= held.dom());
            assert(held.count(x) > 1);
        }
    }
}

/// Stores `count` as the count of a value that the map holds.
///
/// Calls `HashMap::get_mut`, which hands out the place of the count that is
/// kept for `value`, and writes `count` to it; nothing else of the map changes.
#[verifier::external_body]
fn store_count<T: Eq + Hash>(map: &mut HashMap<T, usize>, value: &T, count: usize)
    requires
        obeys_key_model::<T>(),
        old(map)@.contains_key(*value),
    ensures
        final(map)@ == old(map)@.insert(*value, count),
{
    *map.get_mut(value).unwrap() = count;
}

impl<T: Eq + Hash> View for CounterSet<T> {
    type V = Multiset<T>;

    /// The values held, each as often as it is counted.
    closed spec fn view(&self) -> Multiset<T> {
        Multiset::from_map(counts_of(self.map@))
    }
}

impl<T: Eq + Hash> CounterSet<T> {
    /// The set is consistent: its values can be told apart by hashing, no
    /// value is kept with a count of zero, and the length is the sum of the
    /// counts.
    pub closed spec fn well_formed(&self) -> bool {
        &&& obeys_key_model::<T>()
        &&& forall|value: T| self.map@.contains_key(value) ==> self.map@[value] >= 1
        &&& self.length == self@.len()
    }

    /// An empty set.
    pub fn new() -> (set: Self)
        requires
            obeys_key_model::<T>(),
        ensures
            set.well_formed(),
            set@ == Multiset::<T>::empty(),
    {
        let set = CounterSet { map: HashMap::new(), length: 0 };
        proof {
            assert(counts_of(set.map@) =~= Map::<T, nat>::empty());
            assert(set@ =~= Multiset::<T>::empty());
        }
        set
    }

    /// The number of values held, each counted as often as it is held.
    pub fn len(&self) -> (length: usize)
        requires
            self.well_formed(),
        ensures
            length == self@.len(),
    {
        self.length
    }

    /// How often `value` is held.
    pub fn contains_n(&self, value: &T) -> (count: usize)
        requires
            self.well_formed(),
        ensures
            count == self@.count(*value),
    {
        proof {
            lemma_counts_of(self.map@, *value);
        }
        match self.map.get(value) {
            Some(n) => *n,
            None => 0,
        }
    }

    /// Inserts `value` once more.
    ///
    /// Returns zero where the value was not held before, and otherwise its
    /// new count plus one.
    pub fn insert(&mut self, value: T) -> (count: usize)
        requires
            old(self).well_formed(),
            old(self)@.len() < usize::MAX,
            old(self)@.count(value) > 0 ==> old(self)@.count(value) + 2 <= usize::MAX,
        ensures
            final(self).well_formed(),
            final(self)@ == old(self)@.insert(value),
            count == if old(self)@.count(value) == 0 {
                0
            } else {
                old(self)@.count(value) + 2
            },
    {
        let seen: usize = self.contains_n(&value);
        let ghost before = self.map@;
        let ghost held = self@;
        self.map.insert(value, seen + 1);
        self.length = self.length + 1;
        proof {
            let after = self.map@;
            assert(after == before.insert(value, (seen + 1) as usize));
            assert forall|other: T| self@.count(other) == held.insert(value).count(other) by {
                lemma_counts_of(before, other);
                lemma_counts_of(after, other);
            }
            assert(self@ =~= held.insert(value));
            assert forall|other: T| after.contains_key(other) implies after[other] >= 1 by {
                lemma_counts_of(before, other);
            }
        }
        if seen > 0 {
            seen + 2
        } else {
            0
        }
    }

    /// Removes `value` once, if it is held.
    ///
    /// Returns the count that is left of the value.
    pub fn remove(&mut self, value: &T) -> (count: usize)
        requires
            old(self).well_formed(),
        ensures
            final(self).well_formed(),
            final(self)@ == old(self)@.remove(*value),
            count == if old(self)@.count(*value) > 1 {
                old(self)@.count(*value) - 1
            } else {
                0
            },
    {
        let seen: usize = self.contains_n(value);
        let ghost before = self.map@;
        let ghost held = self@;
        proof {
            lemma_counts_of(before, *value);
        }
        if seen == 0 {
            assert(self@ =~= held.remove(*value));
            return 0;
        }
        if seen > 1 {
            store_count(&mut self.map, value, seen - 1);
        } else {
            self.map.remove(value);
        }
        self.length = self.length - 1;
        proof {
            let after = self.map@;
            assert forall|other: T| self@.count(other) == held.remove(*value).count(other) by {
                lemma_counts_of(before, other);
                lemma_counts_of(after, other);
            }
            assert(self@ =~= held.remove(*value));
            assert forall|other: T| after.contains_key(other) implies after[other] >= 1 by {
                lemma_counts_of(before, other);
            }
        }
        if seen > 1 {
            seen - 1
        } else {
            0
        }
    }

    /// Whether some value is held more than once: whether more values are
    /// held than there are different values.
    pub fn is_duplicate(&self) -> (duplicate: bool)
        requires
            self.well_formed(),
        ensures
            duplicate == (self@.len() != self@.dom().len()),
            duplicate <==> exists|value: T| #[trigger] self@.count(value) > 1,
    {
        proof {
            lemma_duplicates(self@);
            assert(self@.dom() =~= self.map@.dom()) by {
                assert forall|value: T| self@.dom().contains(value) == self.map@.dom().contains(
                    value,
                ) by {
                    lemma_counts_of(self.map@, value);
                }
            }
        }
        self.length != self.map.len()
    }

    /// Whether this set holds every value of `other` at least as often as
    /// `other` does.
    pub fn is_superset(&self, other: &Self) -> (superset: bool)
        requires
            self.well_formed(),
            other.well_formed(),
        ensures
            superset == other@.subset_of(self@),
    {
        if self.length < other.length {
            proof {
                if other@.subset_of(self@) {
                    assert(self@ =~= other@.add(self@.sub(other@)));
                }
            }
            return false;
        }
        for pair in it: other.map.iter()
            invariant
                self.well_formed(),
                other.well_formed(),
                forall|i: int|
                    0 <= i < it.index() ==> self@.count(*(#[trigger] it.seq()[i]).0) >= *it.seq()[i].1,
        {
            let (value, n) = pair;
            if self.contains_n(value) < *n {
                proof {
                    lemma_counts_of(other.map@, *value);
                }
                return false;
            }
        }
        proof {
            assert forall|value: T| other@.count(value) <= self@.count(value) by {
                lemma_counts_of(other.map@, value);
            }
        }
        true
    }

    /// The set of the values of a list: each value is held as often as it
    /// stands in the list.
    pub fn from_vec(values: Vec<T>) -> (set: Self)
        requires
            obeys_key_model::<T>(),
            values@.len() < usize::MAX,
        ensures
            set.well_formed(),
            set@ == values@.to_multiset(),
    {
        let mut set = CounterSet::new();
        let mut values = values;
        let ghost all = values@;
        proof {
            assert(Multiset::<T>::empty().add(all.to_multiset()) =~= all.to_multiset());
        }
        while values.len() > 0
            invariant
                set.well_formed(),
                all.len() < usize::MAX,
                set@.add(values@.to_multiset()) == all.to_multiset(),
            decreases values.len(),
        {
            let ghost rest = values@;
            let value = values.pop().unwrap();
            proof {
                assert(rest =~= values@.push(value));
                rest.to_multiset_ensures();
                all.to_multiset_ensures();
                values@.to_multiset_ensures();
                assert(set@.len() + rest.to_multiset().len() == all.to_multiset().len());
            }
            let ghost held = set@;
            set.insert(value);
            proof {
                assert(held.insert(value).add(values@.to_multiset()) =~= held.add(
                    values@.to_multiset().insert(value),
                ));
            }
        }
        proof {
            values@.to_multiset_ensures();
            assert(values@.to_multiset() =~= Multiset::<T>::empty());
            assert(set@ =~= set@.add(Multiset::<T>::empty()));
        }
        set
    }
}

} // verus!
