//! Attribute lists: mappings from names to values that keep the order in
//! which the names were first set.

use vstd::prelude::*;
use vstd::relations::injective_on;
use vstd::set_lib::{lemma_int_range, lemma_map_size, lemma_subset_equality, set_int_range};

verus! {

/// An attribute list as specifications see it: `(key, value)` pairs in the
/// order in which the keys were first set.
pub type Pairs = Seq<(Seq<char>, Seq<char>)>;

/// Some pair of `pairs` has the key `key`.
pub open spec fn has_key<T>(pairs: Seq<(Seq<char>, T)>, key: Seq<char>) -> bool {
    exists|i: int| 0 <= i < pairs.len() && (#[trigger] pairs[i]).0 == key
}

/// No key occurs twice in `pairs`.
pub open spec fn distinct_keys<T>(pairs: Seq<(Seq<char>, T)>) -> bool {
    forall|i: int, j: int|
        0 <= i < j < pairs.len() ==> (#[trigger] pairs[i]).0 != (#[trigger] pairs[j]).0
}

/// The position of `key` in `pairs`; meaningful where `has_key(pairs, key)`.
pub open spec fn index_of<T>(pairs: Seq<(Seq<char>, T)>, key: Seq<char>) -> int {
    choose|i: int| 0 <= i < pairs.len() && (#[trigger] pairs[i]).0 == key
}

/// The value that `pairs` holds for `key`, if any.
pub open spec fn lookup<T>(pairs: Seq<(Seq<char>, T)>, key: Seq<char>) -> Option<T> {
    if has_key(pairs, key) {
        Some(pairs[index_of(pairs, key)].1)
    } else {
        None
    }
}

/// `pairs` after `key` is set to `value`: an existing key keeps its place and
/// takes the new value, a new key goes to the end.
pub open spec fn put<T>(pairs: Seq<(Seq<char>, T)>, key: Seq<char>, value: T) -> Seq<
    (Seq<char>, T),
> {
    if has_key(pairs, key) {
        pairs.update(index_of(pairs, key), (key, value))
    } else {
        pairs.push((key, value))
    }
}

/// `pairs` without the pair of `key`, if it has one.
pub open spec fn without<T>(pairs: Seq<(Seq<char>, T)>, key: Seq<char>) -> Seq<(Seq<char>, T)> {
    if has_key(pairs, key) {
        pairs.remove(index_of(pairs, key))
    } else {
        pairs
    }
}

/// With distinct keys, a position that holds `key` is the position of `key`.
pub proof fn lemma_index_of_unique<T>(pairs: Seq<(Seq<char>, T)>, key: Seq<char>, i: int)
    requires
        distinct_keys(pairs),
        0 <= i < pairs.len(),
        pairs[i].0 == key,
    ensures
        has_key(pairs, key),
        index_of(pairs, key) == i,
        lookup(pairs, key) == Some(pairs[i].1),
{
    let j = index_of(pairs, key);
    if j < i {
        assert(pairs[j].0 != pairs[i].0);
    } else if i < j {
        assert(pairs[i].0 != pairs[j].0);
    }
}

/// Setting a key keeps the keys distinct.
pub proof fn lemma_put_distinct<T>(pairs: Seq<(Seq<char>, T)>, key: Seq<char>, value: T)
    requires
        distinct_keys(pairs),
    ensures
        distinct_keys(put(pairs, key, value)),
        has_key(put(pairs, key, value), key),
        lookup(put(pairs, key, value), key) == Some(value),
{
    let after = put(pairs, key, value);
    if has_key(pairs, key) {
        let at = index_of(pairs, key);
        assert forall|i: int, j: int| 0 <= i < j < after.len() implies (#[trigger] after[i]).0
            != (#[trigger] after[j]).0 by {
            assert(pairs[i].0 != pairs[j].0);
        }
        assert(after[at].0 == key);
        lemma_index_of_unique(after, key, at);
    } else {
        let at = pairs.len() as int;
        assert forall|i: int, j: int| 0 <= i < j < after.len() implies (#[trigger] after[i]).0
            != (#[trigger] after[j]).0 by {
            if j < pairs.len() {
                assert(pairs[i].0 != pairs[j].0);
            } else {
                assert(pairs[i].0 != key);
            }
        }
        assert(after[at].0 == key);
        lemma_index_of_unique(after, key, at);
    }
}

/// Taking a key out keeps the keys distinct, and the key is gone.
pub proof fn lemma_without_distinct<T>(pairs: Seq<(Seq<char>, T)>, key: Seq<char>)
    requires
        distinct_keys(pairs),
    ensures
        distinct_keys(without(pairs, key)),
        !has_key(without(pairs, key), key),
{
    let after = without(pairs, key);
    if has_key(pairs, key) {
        let at = index_of(pairs, key);
        assert forall|i: int, j: int| 0 <= i < j < after.len() implies (#[trigger] after[i]).0
            != (#[trigger] after[j]).0 by {
            let from_i = if i < at {
                i
            } else {
                i + 1
            };
            let from_j = if j < at {
                j
            } else {
                j + 1
            };
            assert(pairs[from_i].0 != pairs[from_j].0);
        }
        assert forall|i: int| 0 <= i < after.len() implies (#[trigger] after[i]).0 != key by {
            let from_i = if i < at {
                i
            } else {
                i + 1
            };
            if from_i < at {
                assert(pairs[from_i].0 != pairs[at].0);
            } else {
                assert(pairs[at].0 != pairs[from_i].0);
            }
        }
    }
}

/// `a` and `b` hold equally many pairs, and each key of `a` has in `b` the
/// value it has in `a`. With distinct keys on both sides this says that
/// the two hold the same pairs, in whatever order.
pub open spec fn same_pairs(a: Pairs, b: Pairs) -> bool {
    a.len() == b.len() && forall|i: int|
        0 <= i < a.len() ==> lookup(b, (#[trigger] a[i]).0) == Some(a[i].1)
}

/// With distinct keys on both sides, `same_pairs` does not depend on the
/// side it is asked from.
pub proof fn lemma_same_pairs_symmetric(a: Pairs, b: Pairs)
    requires
        distinct_keys(a),
        distinct_keys(b),
        same_pairs(a, b),
    ensures
        same_pairs(b, a),
{
    let n = a.len() as int;
    let places = set_int_range(0, n);
    let place = |i: int| index_of(b, a[i].0);
    let hit = places.map(place);
    lemma_int_range(0, n);
    assert forall|i: int| 0 <= i < n implies 0 <= #[trigger] place(i) < n && b[place(i)].0
        == a[i].0 && b[place(i)].1 == a[i].1 by {
        assert(lookup(b, a[i].0) == Some(a[i].1));
    }
    assert(injective_on(place, places)) by {
        assert forall|i: int, j: int|
            places.contains(i) && places.contains(j) && #[trigger] place(i) == #[trigger] place(
                j,
            ) implies i == j by {
            if i < j {
                assert(a[i].0 != a[j].0);
            } else if j < i {
                assert(a[j].0 != a[i].0);
            }
        }
    }
    lemma_map_size(places, hit, place);
    assert(hit.subset_of(places));
    lemma_subset_equality(hit, places);
    assert forall|j: int| 0 <= j < b.len() implies lookup(a, (#[trigger] b[j]).0) == Some(
        b[j].1,
    ) by {
        assert(places.contains(j));
        assert(hit.contains(j));
        let i = choose|i: int| places.contains(i) && j == place(i);
        lemma_index_of_unique(a, b[j].0, i);
    }
}

/// With distinct keys on both sides, `same_pairs` says that every key has
/// the same value, or none, on both sides.
pub proof fn lemma_same_pairs_lookup(a: Pairs, b: Pairs, key: Seq<char>)
    requires
        distinct_keys(a),
        distinct_keys(b),
        same_pairs(a, b),
    ensures
        lookup(a, key) == lookup(b, key),
{
    lemma_same_pairs_symmetric(a, b);
    if has_key(a, key) {
        let i = index_of(a, key);
        assert(lookup(b, a[i].0) == Some(a[i].1));
    } else if has_key(b, key) {
        let j = index_of(b, key);
        assert(lookup(a, b[j].0) == Some(b[j].1));
    }
}

/// A node's attributes: a mapping from attribute name to attribute value that
/// remembers the order in which the names were first set. No name occurs
/// twice.
#[derive(Debug)]
pub struct Attrs {
    entries: Vec<(String, String)>,
}

impl View for Attrs {
    type V = Pairs;

    closed spec fn view(&self) -> Pairs {
        Seq::new(self.entries.len() as nat, |i: int| (self.entries[i].0@, self.entries[i].1@))
    }
}

impl Attrs {
    /// What holds of every attribute list: no key occurs twice.
    #[verifier::type_invariant]
    pub open spec fn keys_are_distinct(&self) -> bool {
        distinct_keys(self@)
    }

    /// An empty attribute list.
    pub fn new() -> (attrs: Attrs)
        ensures
            attrs@ == Pairs::empty(),
    {
        Attrs { entries: Vec::new() }
    }

    /// The number of attributes.
    pub fn len(&self) -> (n: usize)
        ensures
            n == self@.len(),
    {
        self.entries.len()
    }

    /// Whether there is no attribute.
    pub fn is_empty(&self) -> (b: bool)
        ensures
            b == (self@.len() == 0),
    {
        self.entries.len() == 0
    }

    /// The position of `key` among the entries, if it is there.
    fn position(&self, key: &String) -> (at: Option<usize>)
        ensures
            match at {
                Some(i) => i < self@.len() && self@[i as int].0 == key@,
                None => !has_key(self@, key@),
            },
    {
        let mut i: usize = 0;
        while i < self.entries.len()
            invariant
                i <= self.entries.len(),
                forall|j: int| 0 <= j < i ==> (#[trigger] self@[j]).0 != key@,
            decreases self.entries.len() - i,
        {
            if self.entries[i].0 == *key {
                return Some(i);
            }
            i += 1;
        }
        None
    }

    /// Whether `key` is the name of an attribute.
    pub fn contains_key(&self, key: &str) -> (b: bool)
        ensures
            b == has_key(self@, key@),
    {
        let owned = key.to_owned();
        self.position(&owned).is_some()
    }

    /// The value of the attribute `key`, if there is one.
    pub fn get(&self, key: &str) -> (value: Option<&String>)
        ensures
            match value {
                Some(v) => lookup(self@, key@) == Some(v@),
                None => lookup(self@, key@) is None,
            },
    {
        let owned = key.to_owned();
        match self.position(&owned) {
            Some(i) => {
                proof {
                    use_type_invariant(self);
                    lemma_index_of_unique(self@, key@, i as int);
                }
                Some(&self.entries[i].1)
            },
            None => None,
        }
    }

    /// The attributes as pairs of name and value, in order.
    pub fn entries(&self) -> (entries: &Vec<(String, String)>)
        ensures
            entries@.len() == self@.len(),
            forall|i: int|
                0 <= i < entries@.len() ==> (#[trigger] entries@[i]).0@ == self@[i].0
                    && entries@[i].1@ == self@[i].1,
    {
        &self.entries
    }

    /// The name of the attribute at position `i`.
    pub fn key_at(&self, i: usize) -> (key: &String)
        requires
            i < self@.len(),
        ensures
            key@ == self@[i as int].0,
    {
        &self.entries[i].0
    }

    /// The value of the attribute at position `i`.
    pub fn value_at(&self, i: usize) -> (value: &String)
        requires
            i < self@.len(),
        ensures
            value@ == self@[i as int].1,
    {
        &self.entries[i].1
    }

    /// Sets the attribute `key` to `value` and returns the value it had
    /// before, if it had one.
    pub fn insert(&mut self, key: String, value: String) -> (before: Option<String>)
        ensures
            final(self)@ == put(old(self)@, key@, value@),
            lookup(final(self)@, key@) == Some(value@),
            match before {
                Some(v) => lookup(old(self)@, key@) == Some(v@),
                None => lookup(old(self)@, key@) is None,
            },
    {
        proof {
            use_type_invariant(&*self);
            lemma_put_distinct(self@, key@, value@);
        }
        let found = self.position(&key);
        let mut taken = Attrs::new();
        std::mem::swap(self, &mut taken);
        let mut entries = taken.entries;
        let before = match found {
            Some(i) => {
                proof {
                    lemma_index_of_unique(old(self)@, key@, i as int);
                }
                let mut entry = (key, value);
                std::mem::swap(&mut entries[i], &mut entry);
                Some(entry.1)
            },
            None => {
                entries.push((key, value));
                None
            },
        };
        let ghost after = Seq::new(entries.len() as nat, |i: int| (entries[i].0@, entries[i].1@));
        assert(after =~= put(old(self)@, key@, value@));
        *self = Attrs { entries };
        before
    }
}

impl Attrs {
    /// Takes the attribute `key` out and returns the value it had, if it had
    /// one. The other attributes keep their order.
    pub fn remove(&mut self, key: &str) -> (before: Option<String>)
        ensures
            final(self)@ == without(old(self)@, key@),
            match before {
                Some(v) => lookup(old(self)@, key@) == Some(v@),
                None => lookup(old(self)@, key@) is None,
            },
    {
        proof {
            use_type_invariant(&*self);
            lemma_without_distinct(self@, key@);
        }
        let owned = key.to_owned();
        match self.position(&owned) {
            Some(i) => {
                proof {
                    lemma_index_of_unique(self@, key@, i as int);
                }
                let mut taken = Attrs::new();
                std::mem::swap(self, &mut taken);
                let mut entries = taken.entries;
                let entry = entries.remove(i);
                let ghost after = Seq::new(
                    entries.len() as nat,
                    |i: int| (entries[i].0@, entries[i].1@),
                );
                assert(after =~= without(old(self)@, key@));
                *self = Attrs { entries };
                Some(entry.1)
            },
            None => None,
        }
    }
}

impl PartialEq for Attrs {
    /// Whether the two hold the same attributes, in whatever order.
    fn eq(&self, other: &Attrs) -> (equal: bool) {
        if self.entries.len() != other.entries.len() {
            return false;
        }
        let mut i: usize = 0;
        while i < self.entries.len()
            invariant
                i <= self.entries.len(),
                self@.len() == other@.len(),
                forall|j: int|
                    0 <= j < i ==> lookup(other@, (#[trigger] self@[j]).0) == Some(self@[j].1),
            decreases self.entries.len() - i,
        {
            match other.get(self.entries[i].0.as_str()) {
                Some(value) => {
                    if !(*value == self.entries[i].1) {
                        assert(lookup(other@, self@[i as int].0) != Some(self@[i as int].1));
                        return false;
                    }
                },
                None => {
                    assert(lookup(other@, self@[i as int].0) != Some(self@[i as int].1));
                    return false;
                },
            }
            i += 1;
        }
        true
    }
}

impl vstd::std_specs::cmp::PartialEqSpecImpl for Attrs {
    open spec fn obeys_eq_spec() -> bool {
        true
    }

    open spec fn eq_spec(&self, other: &Attrs) -> bool {
        same_pairs(self@, other@)
    }
}

impl Eq for Attrs {

}

impl Clone for Attrs {
    fn clone(&self) -> (copy: Attrs)
        ensures
            copy@ == self@,
    {
        proof {
            use_type_invariant(self);
        }
        let mut entries: Vec<(String, String)> = Vec::new();
        let mut i: usize = 0;
        while i < self.entries.len()
            invariant
                i <= self.entries.len(),
                entries.len() == i,
                forall|j: int|
                    0 <= j < i ==> (#[trigger] entries[j]).0@ == self.entries[j].0@ && entries[j].1@
                        == self.entries[j].1@,
            decreases self.entries.len() - i,
        {
            entries.push((self.entries[i].0.clone(), self.entries[i].1.clone()));
            i += 1;
        }
        let ghost copied = Seq::new(entries.len() as nat, |i: int| (entries[i].0@, entries[i].1@));
        assert(copied =~= self@);
        Attrs { entries }
    }
}

} // verus!
