//! A finite map keyed by (state index, symbol), the shape of a transition
//! description.
//!
//! Keys and values are kept in two vectors of equal length in which no key
//! occurs twice, so that the number of entries is the vectors' length.
use vstd::prelude::*;

verus! {

/// A finite map from (state index, symbol) to `V`.
#[derive(Debug)]
pub struct Table<V> {
    keys: Vec<(usize, char)>,
    values: Vec<V>,
}

impl<V> View for Table<V> {
    type V = Map<(usize, char), V>;

    closed spec fn view(&self) -> Map<(usize, char), V> {
        Map::new(
            |k: (usize, char)| self.keys@.contains(k),
            |k: (usize, char)| self.values@[self.keys@.index_of(k)],
        )
    }
}

impl<V> Table<V> {
    /// No key is stored twice, and each key has its value.
    pub closed spec fn wf(&self) -> bool {
        &&& self.keys@.no_duplicates()
        &&& self.keys@.len() == self.values@.len()
    }

    /// The keys in the order in which they were first inserted.
    pub closed spec fn keys(&self) -> Seq<(usize, char)> {
        self.keys@
    }

    /// The values, each at the position of its key.
    pub closed spec fn values(&self) -> Seq<V> {
        self.values@
    }

    /// The two sequences list the map's entries exactly once.
    pub proof fn lemma_entries(&self)
        requires
            self.wf(),
        ensures
            self.keys().no_duplicates(),
            self.keys().len() == self.values().len(),
            self.keys().to_set() == self@.dom(),
            self@.dom().finite(),
            self@.dom().len() == self.keys().len(),
            forall|i: int|
                0 <= i < self.keys().len() ==> self@.dom().contains(#[trigger] self.keys()[i])
                    && self@[self.keys()[i]] == self.values()[i],
    {
        self.keys@.unique_seq_to_set();
        vstd::seq_lib::seq_to_set_is_finite(self.keys@);
        assert(self.keys@.to_set() =~= self@.dom());
        assert forall|i: int| 0 <= i < self.keys@.len() implies self@.dom().contains(
            #[trigger] self.keys@[i],
        ) && self@[self.keys@[i]] == self.values@[i] by {
            let k = self.keys@[i];
            assert(self.keys@.contains(k));
            assert(self.keys@.index_of(k) == i);
        }
    }

    /// The empty map.
    pub fn new() -> (t: Self)
        ensures
            t@ == Map::<(usize, char), V>::empty(),
            t.wf(),
    {
        let t = Table { keys: Vec::new(), values: Vec::new() };
        assert(t@ =~= Map::<(usize, char), V>::empty());
        t
    }

    /// The number of entries.
    pub fn len(&self) -> (n: usize)
        requires
            self.wf(),
        ensures
            n == self@.dom().len(),
            n == self.keys().len(),
    {
        proof {
            self.lemma_entries();
        }
        self.keys.len()
    }

    /// Where `key` is stored, if it is.
    fn position(&self, key: (usize, char)) -> (at: Option<usize>)
        ensures
            match at {
                Some(i) => i < self.keys@.len() && self.keys@[i as int] == key,
                None => !self.keys@.contains(key),
            },
    {
        let mut i: usize = 0;
        while i < self.keys.len()
            invariant
                i <= self.keys@.len(),
                forall|j: int| 0 <= j < i ==> self.keys@[j] != key,
            decreases self.keys@.len() - i,
        {
            let k = self.keys[i];
            if k.0 == key.0 && k.1 == key.1 {
                return Some(i);
            }
            i = i + 1;
        }
        None
    }

    /// Whether `key` is mapped to anything.
    pub fn contains_key(&self, key: (usize, char)) -> (found: bool)
        ensures
            found == self@.dom().contains(key),
    {
        self.position(key).is_some()
    }

    /// What `key` is mapped to, if to anything.
    pub fn get(&self, key: (usize, char)) -> (value: Option<&V>)
        requires
            self.wf(),
        ensures
            match value {
                Some(v) => self@.dom().contains(key) && *v == self@[key],
                None => !self@.dom().contains(key),
            },
    {
        match self.position(key) {
            Some(i) => {
                proof {
                    self.lemma_entries();
                }
                Some(&self.values[i])
            },
            None => None,
        }
    }

    /// Maps `key` to `value`, in place of what it was mapped to before.
    pub fn insert(&mut self, key: (usize, char), value: V)
        requires
            old(self).wf(),
        ensures
            final(self).wf(),
            final(self)@ == old(self)@.insert(key, value),
    {
        proof {
            self.lemma_entries();
        }
        let ghost before = *self;
        match self.position(key) {
            Some(i) => {
                self.values.set(i, value);
                proof {
                    self.lemma_entries();
                    assert forall|k: (usize, char)| self@.dom().contains(k) implies self@[k]
                        == before@.insert(key, value)[k] by {
                        let j = self.keys@.index_of(k);
                        assert(self.keys@[j] == k);
                        assert(self@[self.keys()[j]] == self.values()[j]);
                        assert(before@[before.keys()[j]] == before.values()[j]);
                    }
                    assert(self@ =~= before@.insert(key, value));
                }
            },
            None => {
                self.keys.push(key);
                self.values.push(value);
                proof {
                    self.lemma_entries();
                    before.keys@.lemma_push_to_set_commute(key);
                    assert forall|k: (usize, char)| self@.dom().contains(k) implies self@[k]
                        == before@.insert(key, value)[k] by {
                        let j = self.keys@.index_of(k);
                        assert(self.keys@[j] == k);
                        assert(self@[self.keys()[j]] == self.values()[j]);
                        if j < before.keys@.len() {
                            assert(before.keys()[j] == k);
                            assert(before@[before.keys()[j]] == before.values()[j]);
                        }
                    }
                    assert(self@ =~= before@.insert(key, value));
                }
            },
        }
    }

    /// The key at position `i` of `keys()`.
    pub fn key_at(&self, i: usize) -> (key: (usize, char))
        requires
            i < self.keys().len(),
        ensures
            key == self.keys()[i as int],
    {
        self.keys[i]
    }

    /// The value at position `i` of `values()`.
    pub fn value_at(&self, i: usize) -> (value: &V)
        requires
            i < self.values().len(),
        ensures
            *value == self.values()[i as int],
    {
        &self.values[i]
    }
}

} // verus!
