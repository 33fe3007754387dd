//! A map from names to values that is walked in the order of its names.

use crate::order::{
    ascending, compare, enumerates, in_order, key_lt, lemma_ascending_distinct, lemma_in_order_is,
    lemma_insert_keeps_ascending, lemma_key_lt_asymmetric, lemma_key_lt_irreflexive,
    lemma_key_lt_transitive, KeyOrder,
};
use vstd::prelude::*;
use vstd::string::*;

verus! {

/// The map that holds `values[i]` under `names[i]`.
pub open spec fn assoc<T>(names: Seq<Seq<char>>, values: Seq<T>) -> Map<Seq<char>, T> {
    Map::new(|k: Seq<char>| names.contains(k), |k: Seq<char>| values[names.index_of(k)])
}

/// In an ascending listing each name is found at its own place only.
pub proof fn lemma_index_of_ascending(names: Seq<Seq<char>>, i: int)
    requires
        ascending(names),
        0 <= i < names.len(),
    ensures
        names.contains(names[i]),
        names.index_of(names[i]) == i,
{
    let j = names.index_of(names[i]);
    lemma_ascending_distinct(names, i, j);
}

/// What [`assoc`] holds under the `i`-th name is the `i`-th value.
pub proof fn lemma_assoc_at<T>(names: Seq<Seq<char>>, values: Seq<T>, i: int)
    requires
        ascending(names),
        0 <= i < names.len(),
    ensures
        assoc(names, values).contains_key(names[i]),
        assoc(names, values)[names[i]] == values[i],
{
    lemma_index_of_ascending(names, i);
}

/// Replacing the `i`-th value replaces what is held under the `i`-th name.
pub proof fn lemma_assoc_update<T>(names: Seq<Seq<char>>, values: Seq<T>, i: int, v: T)
    requires
        ascending(names),
        names.len() == values.len(),
        0 <= i < names.len(),
    ensures
        assoc(names, values.update(i, v)) == assoc(names, values).insert(names[i], v),
{
    let before = assoc(names, values);
    let after = assoc(names, values.update(i, v));
    lemma_index_of_ascending(names, i);
    assert forall|k: Seq<char>| #[trigger] after.contains_key(k) implies after[k]
        == before.insert(names[i], v)[k] by {
        let j = names.index_of(k);
        if k != names[i] {
            assert(j != i);
        }
    }
    assert(after =~= before.insert(names[i], v));
}

/// Putting a new name at its place in the order keeps the listing ascending,
/// and adds the name with its value to the map.
pub proof fn lemma_assoc_insert<T>(
    names: Seq<Seq<char>>,
    values: Seq<T>,
    i: int,
    k: Seq<char>,
    v: T,
)
    requires
        ascending(names),
        names.len() == values.len(),
        0 <= i <= names.len(),
        forall|j: int| 0 <= j < i ==> key_lt(#[trigger] names[j], k),
        forall|j: int| i <= j < names.len() ==> key_lt(k, #[trigger] names[j]),
    ensures
        ascending(names.insert(i, k)),
        assoc(names.insert(i, k), values.insert(i, v)) == assoc(names, values).insert(k, v),
{
    let names2 = names.insert(i, k);
    let values2 = values.insert(i, v);
    lemma_insert_keeps_ascending(names, i, k);
    let before = assoc(names, values);
    let after = assoc(names2, values2);
    assert forall|x: Seq<char>| after.contains_key(x) <==> before.insert(k, v).contains_key(
        x,
    ) by {
        if names2.contains(x) {
            let a = choose|a: int| 0 <= a < names2.len() && names2[a] == x;
            if a < i {
                assert(names[a] == x);
            } else if a > i {
                assert(names[a - 1] == x);
            }
        }
        if x == k {
            assert(names2[i] == x);
        } else if names.contains(x) {
            let a = choose|a: int| 0 <= a < names.len() && names[a] == x;
            if a < i {
                assert(names2[a] == x);
            } else {
                assert(names2[a + 1] == x);
            }
        }
    }
    assert forall|x: Seq<char>| #[trigger] after.contains_key(x) implies after[x] == before.insert(
        k,
        v,
    )[x] by {
        assert(names2.contains(x));
        let a = names2.index_of(x);
        assert(0 <= a < names2.len() && names2[a] == x);
        assert(after[x] == values2[a]);
        if a < i {
            assert(names[a] == x);
            lemma_index_of_ascending(names, a);
            lemma_key_lt_asymmetric(names[a], k);
            assert(values2[a] == values[a]);
        } else if a > i {
            assert(names[a - 1] == x);
            lemma_index_of_ascending(names, a - 1);
            lemma_key_lt_asymmetric(k, names[a - 1]);
            assert(values2[a] == values[a - 1]);
        } else {
            assert(x == k);
        }
    }
    assert(after =~= before.insert(k, v));
}

/// The names of an ascending listing are the domain of its map, in order.
pub proof fn lemma_assoc_in_order<T>(names: Seq<Seq<char>>, values: Seq<T>)
    requires
        ascending(names),
    ensures
        enumerates(names, assoc(names, values).dom()),
        in_order(assoc(names, values).dom()) == names,
{
    assert(enumerates(names, assoc(names, values).dom()));
    lemma_in_order_is(names, assoc(names, values).dom());
}

/// A map from names to values, kept in the ascending order of the names, so
/// that walking it always meets the same names in the same order.
pub struct SortedMap<T> {
    keys: Vec<String>,
    values: Vec<T>,
}

impl<T> View for SortedMap<T> {
    type V = Map<Seq<char>, T>;

    closed spec fn view(&self) -> Map<Seq<char>, T> {
        assoc(self.names(), self.values@)
    }
}

impl<T> SortedMap<T> {
    /// The names, in the order in which they are kept.
    pub closed spec fn names(&self) -> Seq<Seq<char>> {
        self.keys@.map_values(|k: String| k@)
    }

    /// The values, each at the place of its name.
    pub closed spec fn values(&self) -> Seq<T> {
        self.values@
    }

    /// Every name has one value, and the names ascend.
    #[verifier::type_invariant]
    pub closed spec fn well_formed(&self) -> bool {
        &&& self.keys@.len() == self.values@.len()
        &&& ascending(self.names())
    }

    /// What a well-formed map offers: as many values as names, the names
    /// being those of the map, finitely many and in ascending order, and each
    /// value the one held under the name at its place.
    pub proof fn lemma_listing(&self)
        requires
            self.well_formed(),
        ensures
            self.names().len() == self.values().len(),
            ascending(self.names()),
            self@.dom().finite(),
            in_order(self@.dom()) == self.names(),
            forall|k: Seq<char>| self.names().contains(k) <==> self@.contains_key(k),
            forall|i: int|
                0 <= i < self.names().len() ==> self@.contains_key(#[trigger] self.names()[i])
                    && self@[self.names()[i]] == self.values()[i],
    {
        lemma_assoc_in_order(self.names(), self.values@);
        assert(self@.dom().finite()) by {
            vstd::seq_lib::seq_to_set_is_finite(self.names());
            assert(self@.dom() =~= self.names().to_set());
        }
        assert forall|i: int| 0 <= i < self.names().len() implies self@.contains_key(
            #[trigger] self.names()[i],
        ) && self@[self.names()[i]] == self.values()[i] by {
            lemma_assoc_at(self.names(), self.values@, i);
        }
    }

    /// A map that holds nothing.
    pub fn new() -> (m: Self)
        ensures
            m@ == Map::<Seq<char>, T>::empty(),
            m.names() == Seq::<Seq<char>>::empty(),
            m.well_formed(),
    {
        let m = SortedMap { keys: Vec::new(), values: Vec::new() };
        assert(m.names() =~= Seq::<Seq<char>>::empty());
        assert(m@ =~= Map::<Seq<char>, T>::empty());
        m
    }

    /// The number of names.
    pub fn len(&self) -> (n: usize)
        ensures
            n == self.names().len(),
            n == self.values().len(),
    {
        proof {
            use_type_invariant(self);
        }
        self.keys.len()
    }

    /// The name at place `i` of the order.
    pub fn key(&self, i: usize) -> (k: &str)
        requires
            i < self.names().len(),
        ensures
            k@ == self.names()[i as int],
    {
        self.keys[i].as_str()
    }

    /// The value of the name at place `i` of the order.
    pub fn value(&self, i: usize) -> (v: &T)
        requires
            i < self.values().len(),
        ensures
            *v == self.values()[i as int],
    {
        &self.values[i]
    }

    /// The place of `key` where it is held, else the place where it belongs.
    fn search(&self, key: &str) -> (r: (usize, bool))
        ensures
            r.0 <= self.names().len(),
            r.1 ==> r.0 < self.names().len() && self.names()[r.0 as int] == key@,
            !r.1 ==> !self.names().contains(key@),
            forall|j: int| 0 <= j < r.0 ==> key_lt(#[trigger] self.names()[j], key@),
            forall|j: int|
                r.0 <= j < self.names().len() && !(r.1 && j == r.0) ==> key_lt(
                    key@,
                    #[trigger] self.names()[j],
                ),
    {
        proof {
            use_type_invariant(self);
        }
        let mut lo: usize = 0;
        let mut hi: usize = self.keys.len();
        while lo < hi
            invariant
                lo <= hi <= self.keys@.len(),
                ascending(self.names()),
                forall|j: int| 0 <= j < lo ==> key_lt(#[trigger] self.names()[j], key@),
                forall|j: int| hi <= j < self.names().len() ==> key_lt(
                    key@,
                    #[trigger] self.names()[j],
                ),
            decreases hi - lo,
        {
            let mid = lo + (hi - lo) / 2;
            let ghost at = self.names()[mid as int];
            match compare(self.keys[mid].as_str(), key) {
                KeyOrder::Before => {
                    proof {
                        assert forall|j: int| 0 <= j < mid + 1 implies key_lt(
                            #[trigger] self.names()[j],
                            key@,
                        ) by {
                            if j < mid {
                                assert(key_lt(self.names()[j], self.names()[mid as int]));
                                lemma_key_lt_transitive(self.names()[j], at, key@);
                            }
                        }
                    }
                    lo = mid + 1;
                },
                KeyOrder::After => {
                    proof {
                        assert forall|j: int| mid <= j < self.names().len() implies key_lt(
                            key@,
                            #[trigger] self.names()[j],
                        ) by {
                            if mid < j {
                                assert(key_lt(self.names()[mid as int], self.names()[j]));
                                lemma_key_lt_transitive(key@, at, self.names()[j]);
                            }
                        }
                    }
                    hi = mid;
                },
                KeyOrder::Same => {
                    proof {
                        assert forall|j: int| 0 <= j < mid implies key_lt(
                            #[trigger] self.names()[j],
                            key@,
                        ) by {
                            assert(key_lt(self.names()[j], self.names()[mid as int]));
                        }
                        assert forall|j: int| mid < j < self.names().len() implies key_lt(
                            key@,
                            #[trigger] self.names()[j],
                        ) by {
                            assert(key_lt(self.names()[mid as int], self.names()[j]));
                        }
                    }
                    return (mid, true);
                },
            }
        }
        proof {
            if self.names().contains(key@) {
                let j = choose|j: int| 0 <= j < self.names().len() && self.names()[j] == key@;
                lemma_key_lt_irreflexive(key@);
            }
        }
        (lo, false)
    }

    /// Whether the map holds `key`.
    pub fn contains_key(&self, key: &str) -> (b: bool)
        ensures
            b == self@.contains_key(key@),
    {
        let (_, found) = self.search(key);
        found
    }

    /// The value held under `key`, if there is one.
    pub fn get(&self, key: &str) -> (r: Option<&T>)
        ensures
            match r {
                Some(v) => self@.contains_key(key@) && *v == self@[key@],
                None => !self@.contains_key(key@),
            },
    {
        let (i, found) = self.search(key);
        if found {
            proof {
                use_type_invariant(self);
                lemma_assoc_at(self.names(), self.values@, i as int);
            }
            Some(&self.values[i])
        } else {
            None
        }
    }

    /// Puts a name that the map does not hold at place `i`, where it belongs.
    fn insert_at(&mut self, i: usize, key: String, value: T)
        requires
            i <= old(self).names().len(),
            forall|j: int| 0 <= j < i ==> key_lt(#[trigger] old(self).names()[j], key@),
            forall|j: int|
                i <= j < old(self).names().len() ==> key_lt(key@, #[trigger] old(self).names()[j]),
        ensures
            final(self).names() == old(self).names().insert(i as int, key@),
            final(self).values() == old(self).values().insert(i as int, value),
            final(self)@ == old(self)@.insert(key@, value),
    {
        proof {
            use_type_invariant(&*self);
            lemma_assoc_insert(self.names(), self.values@, i as int, key@, value);
        }
        let mut taken = SortedMap::new();
        core::mem::swap(self, &mut taken);
        let SortedMap { mut keys, mut values } = taken;
        keys.insert(i, key);
        values.insert(i, value);
        assert(keys@.map_values(|k: String| k@) =~= old(self).names().insert(i as int, key@));
        *self = SortedMap { keys, values };
    }

    /// Holds `value` under `key` from now on, whether or not the map held
    /// `key` before.
    pub fn insert(&mut self, key: &str, value: T)
        ensures
            final(self)@ == old(self)@.insert(key@, value),
    {
        proof {
            use_type_invariant(&*self);
        }
        let (i, found) = self.search(key);
        if found {
            proof {
                lemma_assoc_update(self.names(), self.values@, i as int, value);
            }
            self.values[i] = value;
        } else {
            self.insert_at(i, key.to_owned(), value);
        }
    }

    /// Access to the value held under `key`, which is `default` where the map
    /// did not hold `key` yet. What the caller leaves in the slot is what the
    /// map holds under `key` afterwards.
    pub fn entry(&mut self, key: &str, default: T) -> (slot: &mut T)
        ensures
            *slot == (if old(self)@.contains_key(key@) {
                old(self)@[key@]
            } else {
                default
            }),
            final(self)@ == old(self)@.insert(key@, *final(slot)),
    {
        let (i, found) = self.search(key);
        if !found {
            self.insert_at(i, key.to_owned(), default);
        }
        proof {
            use_type_invariant(&*self);
            lemma_assoc_at(self.names(), self.values@, i as int);
            assert forall|v: T| #[trigger]
                assoc(self.names(), self.values@.update(i as int, v)) == assoc(
                    self.names(),
                    self.values@,
                ).insert(key@, v) by {
                lemma_assoc_update(self.names(), self.values@, i as int, v);
            }
        }
        &mut self.values[i]
    }
}

} // verus!
