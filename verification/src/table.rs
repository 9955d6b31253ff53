//! A table keyed by names, in the order in which the names were added.

use vstd::prelude::*;
use vstd::string::StringExecFns;

verus! {

/// A finite map from names to values. Each name is held once; entries keep the order
/// in which their names were added.
#[derive(Debug)]
pub struct Table<T> {
    entries: Vec<(String, T)>,
}

impl<T> Table<T> {
    /// The names, in the order in which they were added.
    pub closed spec fn keys(&self) -> Seq<Seq<char>> {
        Seq::new(self.entries@.len(), |i: int| self.entries@[i].0@)
    }

    /// The values, in the order in which their names were added.
    pub closed spec fn values(&self) -> Seq<T> {
        Seq::new(self.entries@.len(), |i: int| self.entries@[i].1)
    }

    /// No name is held twice.
    pub closed spec fn wf(&self) -> bool {
        self.keys().no_duplicates()
    }

    /// `index` is the first position of `key` among the names.
    pub open spec fn first_at(&self, key: Seq<char>, index: int) -> bool {
        &&& 0 <= index < self.keys().len()
        &&& self.keys()[index] == key
        &&& forall|j: int| 0 <= j < index ==> self.keys()[j] != key
    }

    /// The first position of `key` among the names.
    pub open spec fn index_of(&self, key: Seq<char>) -> int {
        choose|i: int| self.first_at(key, i)
    }

    /// The map that the table stands for.
    pub open spec fn view(&self) -> Map<Seq<char>, T> {
        Map::new(
            |key: Seq<char>| self.keys().contains(key),
            |key: Seq<char>| self.values()[self.index_of(key)],
        )
    }

    /// There are as many values as names, and an entry's value is what the map gives
    /// for its name.
    pub proof fn lemma_entries(&self)
        requires
            self.wf(),
        ensures
            self.keys().len() == self.values().len(),
            self.keys().no_duplicates(),
            forall|i: int|
                0 <= i < self.keys().len() ==> self@.dom().contains(#[trigger] self.keys()[i])
                    && self@[self.keys()[i]] == self.values()[i],
            forall|key: Seq<char>| self@.dom().contains(key) <==> self.keys().contains(key),
            forall|key: Seq<char>|
                self.keys().contains(key) ==> 0 <= #[trigger] self.index_of(key) < self.keys().len()
                    && self.keys()[self.index_of(key)] == key,
    {
        assert forall|i: int| 0 <= i < self.keys().len() implies self@.dom().contains(
            #[trigger] self.keys()[i],
        ) && self@[self.keys()[i]] == self.values()[i] && self.index_of(self.keys()[i]) == i by {
            let key = self.keys()[i];
            assert(self.keys().contains(key));
            assert(self.first_at(key, i));
            let j = self.index_of(key);
            assert(i == j);
        }
        assert forall|key: Seq<char>|
            self.keys().contains(key) implies 0 <= #[trigger] self.index_of(key)
            < self.keys().len() && self.keys()[self.index_of(key)] == key by {
            let i = choose|i: int| 0 <= i < self.keys().len() && self.keys()[i] == key;
            assert(self.index_of(self.keys()[i]) == i);
        }
    }

    /// An empty table.
    pub fn new() -> (table: Self)
        ensures
            table.wf(),
            table@ == Map::<Seq<char>, T>::empty(),
            table.keys() == Seq::<Seq<char>>::empty(),
    {
        let table = Table { entries: Vec::new() };
        assert(table.keys() =~= Seq::<Seq<char>>::empty());
        assert(table@ =~= Map::<Seq<char>, T>::empty());
        table
    }

    /// The number of entries.
    pub fn len(&self) -> (len: usize)
        ensures
            len == self.keys().len(),
    {
        self.entries.len()
    }

    /// The first position of an entry of that name, if there is one.
    fn find(&self, key: &str) -> (found: Option<usize>)
        ensures
            found matches Some(i) ==> self.first_at(key@, i as int) && self.index_of(key@) == i,
            found is None ==> !self.keys().contains(key@),
    {
        let wanted = String::from_str(key);
        let mut i: usize = 0;
        while i < self.entries.len()
            invariant
                i <= self.entries.len(),
                wanted@ == key@,
                forall|j: int| 0 <= j < i ==> self.keys()[j] != key@,
            decreases self.entries.len() - i,
        {
            if self.entries[i].0 == wanted {
                assert(self.first_at(key@, i as int));
                return Some(i);
            }
            i += 1;
        }
        None
    }

    /// Whether the table has an entry of that name.
    pub fn contains_key(&self, key: &str) -> (found: bool)
        ensures
            found == self@.dom().contains(key@),
    {
        self.find(key).is_some()
    }

    /// The value of that name, if there is one.
    pub fn get(&self, key: &str) -> (value: Option<&T>)
        ensures
            value is Some == self@.dom().contains(key@),
            value matches Some(v) ==> *v == self@[key@],
    {
        match self.find(key) {
            Some(i) => Some(&self.entries[i].1),
            None => None,
        }
    }

    /// The name of the entry at `index`.
    pub fn key_at(&self, index: usize) -> (key: &String)
        requires
            index < self.keys().len(),
        ensures
            key@ == self.keys()[index as int],
    {
        &self.entries[index].0
    }

    /// The value of the entry at `index`.
    pub fn value_at(&self, index: usize) -> (value: &T)
        requires
            index < self.keys().len(),
        ensures
            *value == self.values()[index as int],
    {
        &self.entries[index].1
    }

    /// Replaces the value of the entry at `index`.
    pub fn set_value_at(&mut self, index: usize, value: T)
        requires
            old(self).wf(),
            index < old(self).keys().len(),
        ensures
            final(self).wf(),
            final(self).keys() == old(self).keys(),
            final(self).values() == old(self).values().update(index as int, value),
            final(self)@ == old(self)@.insert(old(self).keys()[index as int], value),
    {
        let ghost before = *self;
        proof {
            before.lemma_entries();
        }
        let (key, _) = self.entries.remove(index);
        self.entries.insert(index, (key, value));
        proof {
            assert(self.keys() =~= before.keys());
            assert(self.values() =~= before.values().update(index as int, value));
            self.lemma_entries();
            let updated = before@.insert(before.keys()[index as int], value);
            assert forall|name: Seq<char>| self@.dom().contains(name) implies #[trigger] self@[name]
                == updated[name] by {
                let i = self.index_of(name);
                assert(before.keys()[i] == name);
            }
            assert(self@ =~= updated);
        }
    }

    /// Sets the value of `key`, adding the name at the end if it is new. Returns the
    /// value that was replaced.
    pub fn insert(&mut self, key: String, value: T) -> (replaced: Option<T>)
        requires
            old(self).wf(),
        ensures
            final(self).wf(),
            final(self)@ == old(self)@.insert(key@, value),
            replaced is Some == old(self)@.dom().contains(key@),
            replaced matches Some(v) ==> v == old(self)@[key@],
            old(self)@.dom().contains(key@) ==> final(self).keys() == old(self).keys(),
            !old(self)@.dom().contains(key@) ==> final(self).keys() == old(self).keys().push(key@)
                && final(self).values() == old(self).values().push(value),
    {
        let ghost before = *self;
        proof {
            before.lemma_entries();
        }
        match self.find(key.as_str()) {
            Some(i) => {
                let (_, replaced) = self.entries.remove(i);
                self.entries.insert(i, (key, value));
                proof {
                    assert(self.keys() =~= before.keys());
                    assert(self.values() =~= before.values().update(i as int, value));
                    self.lemma_entries();
                    let updated = before@.insert(key@, value);
                    assert forall|name: Seq<char>|
                        self@.dom().contains(name) implies #[trigger] self@[name]
                        == updated[name] by {
                        let j = self.index_of(name);
                        assert(before.keys()[j] == name);
                    }
                    assert(self@ =~= updated);
                }
                Some(replaced)
            },
            None => {
                self.entries.push((key, value));
                proof {
                    assert(self.keys() =~= before.keys().push(key@));
                    assert(self.values() =~= before.values().push(value));
                    self.lemma_entries();
                    let updated = before@.insert(key@, value);
                    assert forall|name: Seq<char>|
                        updated.dom().contains(name) implies self@.dom().contains(name) by {
                        if name == key@ {
                            assert(self.keys()[before.keys().len() as int] == name);
                        } else {
                            let j = before.index_of(name);
                            assert(self.keys()[j] == name);
                        }
                    }
                    assert forall|name: Seq<char>|
                        self@.dom().contains(name) implies #[trigger] self@[name]
                        == updated[name] && updated.dom().contains(name) by {
                        let j = self.index_of(name);
                        if j < before.keys().len() {
                            assert(before.keys()[j] == name);
                        }
                    }
                    assert(self@ =~= updated);
                }
                None
            },
        }
    }

    /// Removes the entry of that name and returns its value.
    pub fn remove(&mut self, key: &str) -> (removed: Option<T>)
        requires
            old(self).wf(),
        ensures
            final(self).wf(),
            final(self)@ == old(self)@.remove(key@),
            removed is Some == old(self)@.dom().contains(key@),
            removed matches Some(v) ==> v == old(self)@[key@],
            !old(self)@.dom().contains(key@) ==> final(self).keys() == old(self).keys()
                && final(self).values() == old(self).values(),
            old(self)@.dom().contains(key@) ==> final(self).keys() == old(self).keys().remove(
                old(self).index_of(key@),
            ) && final(self).values() == old(self).values().remove(old(self).index_of(key@)),
    {
        let ghost before = *self;
        proof {
            before.lemma_entries();
        }
        match self.find(key) {
            Some(i) => {
                let (_, removed) = self.entries.remove(i);
                proof {
                    assert(before.index_of(key@) == i);
                    assert(self.keys() =~= before.keys().remove(i as int));
                    assert(self.values() =~= before.values().remove(i as int));
                    assert forall|a: int, b: int|
                        0 <= a < self.keys().len() && 0 <= b < self.keys().len() && a
                            != b implies self.keys()[a] != self.keys()[b] by {
                        let a0 = if a < i { a } else { a + 1 };
                        let b0 = if b < i { b } else { b + 1 };
                        assert(self.keys()[a] == before.keys()[a0]);
                        assert(self.keys()[b] == before.keys()[b0]);
                    }
                    self.lemma_entries();
                    let updated = before@.remove(key@);
                    assert forall|name: Seq<char>|
                        updated.dom().contains(name) implies self@.dom().contains(name) by {
                        let j = before.index_of(name);
                        let j1 = if j < i { j } else { j - 1 };
                        assert(self.keys()[j1] == name);
                    }
                    assert forall|name: Seq<char>|
                        self@.dom().contains(name) implies #[trigger] self@[name]
                        == updated[name] && updated.dom().contains(name) by {
                        let j = self.index_of(name);
                        let j0 = if j < i { j } else { j + 1 };
                        assert(before.keys()[j0] == name);
                    }
                    assert(self@ =~= updated);
                }
                Some(removed)
            },
            None => {
                assert(self@ =~= before@.remove(key@));
                None
            },
        }
    }
}

} // verus!
