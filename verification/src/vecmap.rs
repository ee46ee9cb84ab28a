//! A finite map kept as two parallel vectors, for keys that can only be
//! compared for equality.

use crate::bytes::{lemma_bytes_lt_irreflexive, rank_bytes, Rank};
use vstd::prelude::*;

verus! {

/// A type that can serve as a map key: equality of views is decidable at run time.
pub trait Key: View + Sized {
    /// Whether the two keys are the same key.
    fn key_eq(&self, other: &Self) -> (same: bool)
        ensures
            same == (self@ == other@),
    ;
}

/// The map that sends `keys[i]` to `vals[i]`.
pub open spec fn assoc<A, B>(keys: Seq<A>, vals: Seq<B>) -> Map<A, B> {
    Map::new(|k: A| keys.contains(k), |k: A| vals[keys.index_of(k)])
}

/// With distinct keys, `assoc` holds exactly the pairs `(keys[i], vals[i])`.
pub proof fn lemma_assoc<A, B>(keys: Seq<A>, vals: Seq<B>)
    requires
        keys.no_duplicates(),
        keys.len() == vals.len(),
    ensures
        forall|i: int|
            0 <= i < keys.len() ==> assoc(keys, vals).contains_key(#[trigger] keys[i]) && assoc(
                keys,
                vals,
            )[keys[i]] == vals[i],
        forall|k: A| #[trigger] assoc(keys, vals).contains_key(k) <==> keys.contains(k),
        assoc(keys, vals).dom() == keys.to_set(),
        assoc(keys, vals).dom().finite(),
        assoc(keys, vals).dom().len() == keys.len(),
{
    assert forall|i: int| 0 <= i < keys.len() implies assoc(keys, vals).contains_key(
        #[trigger] keys[i],
    ) && assoc(keys, vals)[keys[i]] == vals[i] by {
        assert(keys.contains(keys[i]));
        keys.index_of_first_ensures(keys[i]);
    }
    assert(assoc(keys, vals).dom() =~= keys.to_set());
    vstd::seq_lib::seq_to_set_is_finite(keys);
    keys.unique_seq_to_set();
}

/// A finite map from `K` to `V`.
pub struct VecMap<K, V> {
    keys: Vec<K>,
    vals: Vec<V>,
}

impl<K: Key, V: View> View for VecMap<K, V> {
    type V = Map<K::V, V::V>;

    open spec fn view(&self) -> Map<K::V, V::V> {
        self.map().map_values(|v: V| v@)
    }
}

impl<K: Key, V> VecMap<K, V> {
    /// The keys, in the order in which they were first inserted.
    pub closed spec fn keys(&self) -> Seq<K::V> {
        self.keys@.map_values(|k: K| k@)
    }

    /// The values, in the order of `keys`.
    pub closed spec fn vals(&self) -> Seq<V> {
        self.vals@
    }

    /// No key is held twice, and every key has its value.
    pub closed spec fn wf(&self) -> bool {
        &&& self.keys().len() == self.vals().len()
        &&& self.keys().no_duplicates()
    }

    /// The map from the views of the keys to the values.
    pub open spec fn map(&self) -> Map<K::V, V> {
        assoc(self.keys(), self.vals())
    }

    /// What `wf` means for `keys`, `vals` and `map`.
    pub proof fn lemma_entries(&self)
        requires
            self.wf(),
        ensures
            self.keys().len() == self.vals().len(),
            self.keys().no_duplicates(),
            forall|i: int|
                0 <= i < self.keys().len() ==> self.map().contains_key(#[trigger] self.keys()[i])
                    && self.map()[self.keys()[i]] == self.vals()[i],
            forall|k: K::V| #[trigger] self.map().contains_key(k) <==> self.keys().contains(k),
            self.map().dom().finite(),
            self.map().dom().len() == self.keys().len(),
    {
        lemma_assoc(self.keys(), self.vals());
    }

    /// The empty map.
    pub fn new() -> (m: Self)
        ensures
            m.wf(),
            m.map() == Map::<K::V, V>::empty(),
            m.keys() == Seq::<K::V>::empty(),
    {
        let m = VecMap { keys: Vec::new(), vals: Vec::new() };
        proof {
            assert(m.keys() =~= Seq::<K::V>::empty());
            assert(m.map() =~= Map::<K::V, V>::empty());
        }
        m
    }

    /// Number of entries.
    pub fn len(&self) -> (n: usize)
        requires
            self.wf(),
        ensures
            n == self.keys().len(),
            n == self.map().dom().len(),
    {
        proof {
            self.lemma_entries();
        }
        self.keys.len()
    }

    /// The key of the `i`-th entry.
    pub fn key_at(&self, i: usize) -> (key: &K)
        requires
            self.wf(),
            i < self.keys().len(),
        ensures
            key@ == self.keys()[i as int],
            self.map().contains_key(key@),
    {
        proof {
            self.lemma_entries();
        }
        &self.keys[i]
    }

    /// The value of the `i`-th entry.
    pub fn value_at(&self, i: usize) -> (value: &V)
        requires
            self.wf(),
            i < self.keys().len(),
        ensures
            *value == self.vals()[i as int],
            *value == self.map()[self.keys()[i as int]],
    {
        proof {
            self.lemma_entries();
        }
        &self.vals[i]
    }

    /// Index of the entry for `key`, if there is one.
    pub fn position(&self, key: &K) -> (at: Option<usize>)
        requires
            self.wf(),
        ensures
            match at {
                Some(i) => i < self.keys().len() && self.keys()[i as int] == key@,
                None => !self.keys().contains(key@),
            },
            at is Some <==> self.map().contains_key(key@),
    {
        let mut i: usize = 0;
        while i < self.keys.len()
            invariant
                self.wf(),
                i <= self.keys.len(),
                self.keys.len() == self.keys().len(),
                forall|j: int| 0 <= j < i ==> self.keys()[j] != key@,
            decreases self.keys.len() - i,
        {
            if self.keys[i].key_eq(key) {
                proof {
                    assert(self.keys()[i as int] == key@);
                    self.lemma_entries();
                }
                return Some(i);
            }
            i += 1;
        }
        None
    }

    /// Whether a value is stored for `key`.
    pub fn contains_key(&self, key: &K) -> (found: bool)
        requires
            self.wf(),
        ensures
            found == self.map().contains_key(key@),
    {
        self.position(key).is_some()
    }

    /// The value stored for `key`, if any.
    pub fn get(&self, key: &K) -> (found: Option<&V>)
        requires
            self.wf(),
        ensures
            match found {
                Some(v) => self.map().contains_key(key@) && *v == self.map()[key@],
                None => !self.map().contains_key(key@),
            },
    {
        match self.position(key) {
            Some(i) => {
                proof {
                    self.lemma_entries();
                }
                Some(&self.vals[i])
            },
            None => None,
        }
    }

    /// A mutable reference to the value of the `i`-th entry.
    pub fn value_at_mut(&mut self, i: usize) -> (value: &mut V)
        requires
            old(self).wf(),
            i < old(self).keys().len(),
        ensures
            final(self).wf(),
            *value == old(self).vals()[i as int],
            *value == old(self).map()[old(self).keys()[i as int]],
            final(self).keys() == old(self).keys(),
            final(self).vals() == old(self).vals().update(i as int, *final(value)),
            final(self).map() == old(self).map().insert(old(self).keys()[i as int], *final(value)),
    {
        proof {
            self.lemma_entries();
            let keys = self.keys();
            let vals = self.vals();
            assert forall|v: V| #[trigger]
                assoc(keys, vals.update(i as int, v)) == assoc(keys, vals).insert(
                    keys[i as int],
                    v,
                ) by {
                let m0 = assoc(keys, vals);
                let m1 = assoc(keys, vals.update(i as int, v));
                lemma_assoc(keys, vals);
                lemma_assoc(keys, vals.update(i as int, v));
                assert forall|x: K::V| m1.contains_key(x) implies m1[x] == m0.insert(
                    keys[i as int],
                    v,
                )[x] by {
                    let j = choose|j: int| 0 <= j < keys.len() && keys[j] == x;
                    assert(m1[keys[j]] == vals.update(i as int, v)[j]);
                    assert(m0[keys[j]] == vals[j]);
                }
                assert(m1 =~= m0.insert(keys[i as int], v));
            }
        }
        &mut self.vals[i]
    }

    /// Adds an entry for a key that the map does not hold yet.
    pub fn push_new(&mut self, key: K, value: V)
        requires
            old(self).wf(),
            !old(self).map().contains_key(key@),
        ensures
            final(self).wf(),
            final(self).keys() == old(self).keys().push(key@),
            final(self).vals() == old(self).vals().push(value),
            final(self).map() == old(self).map().insert(key@, value),
    {
        let ghost k = key@;
        let ghost keys0 = self.keys();
        let ghost vals0 = self.vals();
        proof {
            self.lemma_entries();
        }
        self.keys.push(key);
        self.vals.push(value);
        proof {
            let keys1 = self.keys();
            let vals1 = self.vals();
            assert(keys1 =~= keys0.push(k));
            assert(vals1 =~= vals0.push(value));
            assert(keys1.no_duplicates());
            lemma_assoc(keys0, vals0);
            lemma_assoc(keys1, vals1);
            let m0 = assoc(keys0, vals0);
            let m1 = assoc(keys1, vals1);
            assert forall|x: K::V| m1.contains_key(x) <==> m0.insert(k, value).contains_key(
                x,
            ) by {
                if keys1.contains(x) && x != k {
                    let j = choose|j: int| 0 <= j < keys1.len() && keys1[j] == x;
                    assert(keys0[j] == x);
                }
                if keys0.contains(x) {
                    let j = choose|j: int| 0 <= j < keys0.len() && keys0[j] == x;
                    assert(keys1[j] == x);
                }
                if x == k {
                    assert(keys1[keys0.len() as int] == x);
                }
            }
            assert forall|x: K::V| m1.contains_key(x) implies m1[x] == m0.insert(k, value)[x] by {
                let j = choose|j: int| 0 <= j < keys1.len() && keys1[j] == x;
                assert(m1[keys1[j]] == vals1[j]);
                if j < keys0.len() {
                    assert(keys0[j] == x);
                    assert(m0[keys0[j]] == vals0[j]);
                }
            }
            assert(m1 =~= m0.insert(k, value));
        }
    }

    /// A mutable reference to the value stored for `key`; where there is
    /// none yet, `default` is stored first.
    pub fn slot(&mut self, key: K, default: V) -> (value: &mut V)
        requires
            old(self).wf(),
        ensures
            final(self).wf(),
            *value == (if old(self).map().contains_key(key@) {
                old(self).map()[key@]
            } else {
                default
            }),
            final(self).map() == old(self).map().insert(key@, *final(value)),
    {
        let ghost k = key@;
        let ghost m0 = self.map();
        let at = self.position(&key);
        let i = match at {
            Some(i) => i,
            None => {
                self.push_new(key, default);
                self.keys.len() - 1
            },
        };
        proof {
            self.lemma_entries();
            assert(self.keys()[i as int] == k);
            assert(self.map().insert(k, self.map()[k]) =~= self.map());
            assert forall|v: V| #[trigger] self.map().insert(k, v) == m0.insert(k, v) by {
                assert(self.map().insert(k, v) =~= m0.insert(k, v));
            }
        }
        self.value_at_mut(i)
    }
}

impl Key for Vec<u8> {
    fn key_eq(&self, other: &Self) -> (same: bool) {
        proof {
            lemma_bytes_lt_irreflexive(self@);
        }
        rank_bytes(self.as_slice(), other.as_slice()) == Rank::Same
    }
}

impl Key for String {
    fn key_eq(&self, other: &Self) -> (same: bool) {
        *self == *other
    }
}

impl Key for (String, String) {
    fn key_eq(&self, other: &Self) -> (same: bool) {
        self.0 == other.0 && self.1 == other.1
    }
}

impl Key for (String, String, String) {
    fn key_eq(&self, other: &Self) -> (same: bool) {
        self.0 == other.0 && self.1 == other.1 && self.2 == other.2
    }
}

} // verus!
