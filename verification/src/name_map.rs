//! A map keyed by names that keeps them in order of arrival.

use vstd::hash_map::StringHashMap;
use vstd::prelude::*;

verus! {

/// A map from names to values that remembers the order in which names arrived.
///
/// Lookups go through a hash table from each name to its position; the names
/// and the values themselves sit in two vectors, so that a value can be
/// borrowed mutably in place and the entries can be walked by position.
pub struct NameMap<V> {
    slots: StringHashMap<usize>,
    names: Vec<String>,
    values: Vec<V>,
}

impl<V> View for NameMap<V> {
    type V = Map<Seq<char>, V>;

    closed spec fn view(&self) -> Map<Seq<char>, V> {
        Map::new(
            |k: Seq<char>| self.slots@.contains_key(k),
            |k: Seq<char>| self.values@[self.slots@[k] as int],
        )
    }
}

impl<V> NameMap<V> {
    /// The hash table and the two vectors agree: every position is reachable
    /// by its own name, and every slot points at the position that holds its key.
    pub closed spec fn wf(&self) -> bool {
        &&& self.names.len() == self.values.len()
        &&& forall|i: int|
            0 <= i < self.names.len() ==> self.slots@.contains_key(#[trigger] self.names[i]@)
                && self.slots@[self.names[i]@] == i
        &&& forall|k: Seq<char>| #[trigger]
            self.slots@.contains_key(k) ==> self.slots@[k] < self.names.len()
                && self.names[self.slots@[k] as int]@ == k
    }

    /// The names in order of arrival.
    pub closed spec fn names(&self) -> Seq<Seq<char>> {
        Seq::new(self.names.len() as nat, |i: int| self.names[i]@)
    }

    /// What a well-formed map looks like from outside: the names are pairwise
    /// distinct and are exactly the keys.
    pub proof fn lemma_names(&self)
        requires
            self.wf(),
        ensures
            self.names().no_duplicates(),
            forall|k: Seq<char>| self@.contains_key(k) <==> self.names().contains(k),
            self@.dom().finite(),
            self@.dom().len() == self.names().len(),
    {
        let names = self.names();
        assert forall|i: int, j: int| 0 <= i < names.len() && 0 <= j < names.len()
            && i != j implies names[i] != names[j] by {
            assert(self.slots@[self.names[i]@] == i);
            assert(self.slots@[self.names[j]@] == j);
        }
        assert forall|k: Seq<char>| self@.contains_key(k) <==> names.contains(k) by {
            if self@.contains_key(k) {
                assert(names[self.slots@[k] as int] == k);
            }
            if names.contains(k) {
                let i = choose|i: int| 0 <= i < names.len() && names[i] == k;
                assert(self.slots@.contains_key(self.names[i]@));
            }
        }
        assert(self@.dom() =~= names.to_set());
        names.unique_seq_to_set();
    }

    /// An empty map.
    pub fn new() -> (m: Self)
        ensures
            m.wf(),
            m@ == Map::<Seq<char>, V>::empty(),
            m.names() == Seq::<Seq<char>>::empty(),
    {
        let m = NameMap { slots: StringHashMap::new(), names: Vec::new(), values: Vec::new() };
        assert(m@ =~= Map::<Seq<char>, V>::empty());
        assert(m.names() =~= Seq::<Seq<char>>::empty());
        m
    }

    /// The number of entries.
    pub fn len(&self) -> (n: usize)
        requires
            self.wf(),
        ensures
            n == self.names().len(),
            n == self@.dom().len(),
    {
        proof {
            self.lemma_names();
        }
        self.names.len()
    }

    /// Whether the map holds no entry.
    pub fn is_empty(&self) -> (b: bool)
        requires
            self.wf(),
        ensures
            b == (self.names().len() == 0),
            b == (self@ == Map::<Seq<char>, V>::empty()),
    {
        proof {
            self.lemma_names();
            if self.names.len() == 0 {
                assert(self@ =~= Map::<Seq<char>, V>::empty());
            } else {
                assert(self.names().contains(self.names()[0]));
            }
        }
        self.names.len() == 0
    }

    /// The name at a position.
    pub fn name_at(&self, i: usize) -> (name: &String)
        requires
            self.wf(),
            i < self.names().len(),
        ensures
            name@ == self.names()[i as int],
            self@.contains_key(name@),
    {
        &self.names[i]
    }

    /// The value at a position: the one held under the name at that position.
    pub fn value_at(&self, i: usize) -> (value: &V)
        requires
            self.wf(),
            i < self.names().len(),
        ensures
            self@.contains_key(self.names()[i as int]),
            *value == self@[self.names()[i as int]],
    {
        &self.values[i]
    }

    /// Whether a name is a key.
    pub fn contains_key(&self, name: &str) -> (b: bool)
        ensures
            b == self@.contains_key(name@),
    {
        self.slots.contains_key(name)
    }

    /// The value under a name, if there is one.
    pub fn get(&self, name: &str) -> (found: Option<&V>)
        requires
            self.wf(),
        ensures
            match found {
                Some(value) => self@.contains_key(name@) && *value == self@[name@],
                None => !self@.contains_key(name@),
            },
    {
        match self.slots.get(name) {
            Some(slot) => Some(&self.values[*slot]),
            None => None,
        }
    }

    /// The names, in order of arrival.
    pub fn keys(&self) -> (names: Vec<String>)
        requires
            self.wf(),
        ensures
            names.len() == self.names().len(),
            forall|i: int| 0 <= i < names.len() ==> (#[trigger] names[i])@ == self.names()[i],
    {
        let mut names: Vec<String> = Vec::new();
        let mut i: usize = 0;
        while i < self.names.len()
            invariant
                i <= self.names.len(),
                names.len() == i,
                forall|j: int| 0 <= j < i ==> (#[trigger] names[j])@ == self.names[j]@,
            decreases self.names.len() - i,
        {
            names.push(self.names[i].clone());
            i += 1;
        }
        names
    }

    /// Puts a value under a name. A name that is new arrives last; one that is
    /// already a key keeps its position and has its value replaced, and the
    /// value that was there comes back.
    pub fn insert(&mut self, name: String, value: V) -> (previous: Option<V>)
        requires
            old(self).wf(),
        ensures
            final(self).wf(),
            final(self)@ == old(self)@.insert(name@, value),
            old(self)@.contains_key(name@) ==> final(self).names() == old(self).names()
                && previous == Some(old(self)@[name@]),
            !old(self)@.contains_key(name@) ==> final(self).names() == old(self).names().push(
                name@,
            ) && previous.is_none(),
    {
        let found = match self.slots.get(name.as_str()) {
            Some(slot) => Some(*slot),
            None => None,
        };
        match found {
            Some(slot) => {
                let mut held = value;
                std::mem::swap(&mut self.values[slot], &mut held);
                proof {
                    assert(self@ =~= old(self)@.insert(name@, value));
                    assert(self.names() =~= old(self).names());
                }
                Some(held)
            },
            None => {
                let slot: usize = self.names.len();
                let ghost key = name@;
                self.slots.insert(name.clone(), slot);
                self.names.push(name);
                self.values.push(value);
                proof {
                    assert(self@ =~= old(self)@.insert(key, value));
                    assert(self.names() =~= old(self).names().push(key));
                }
                None
            },
        }
    }

    /// A mutable borrow of the value under a name that is a key.
    pub fn get_mut(&mut self, name: &str) -> (value: &mut V)
        requires
            old(self).wf(),
            old(self)@.contains_key(name@),
        ensures
            *value == old(self)@[name@],
            final(self).wf(),
            final(self)@ =~= old(self)@.insert(name@, *final(value)),
            final(self).names() =~= old(self).names(),
    {
        let slot: usize = *self.slots.get(name).unwrap();
        &mut self.values[slot]
    }

    /// A mutable borrow of the value under a name, after putting `fresh` there
    /// if the name was no key yet.
    pub fn get_or_insert(&mut self, name: &str, fresh: V) -> (value: &mut V)
        requires
            old(self).wf(),
        ensures
            final(self).wf(),
            *value == (if old(self)@.contains_key(name@) {
                old(self)@[name@]
            } else {
                fresh
            }),
            final(self)@ == old(self)@.insert(name@, *final(value)),
            old(self)@.contains_key(name@) ==> final(self).names() == old(self).names(),
            !old(self)@.contains_key(name@) ==> final(self).names() == old(self).names().push(
                name@,
            ),
    {
        if !self.contains_key(name) {
            self.insert(name.to_owned(), fresh);
        }
        self.get_mut(name)
    }
}

} // verus!
