//! A small key–value store of strings, kept in memory.
//!
//! The store holds each key once. Persisting it is left to the caller, who
//! can read every entry back through [`LocalStorage::len`],
//! [`LocalStorage::key`] and [`LocalStorage::get`].

use vstd::prelude::*;
use crate::assoc::{
    distinct_keys, has_key, keys_of, lemma_to_map_at, lemma_to_map_keys, lemma_to_map_push,
    lemma_to_map_remove, lemma_to_map_update, position_of, to_map,
};

verus! {

/// The local storage with methods to read and write data.
pub struct LocalStorage {
    local: Vec<(String, String)>,
}

impl View for LocalStorage {
    type V = Map<Seq<char>, Seq<char>>;

    /// The stored values by key.
    closed spec fn view(&self) -> Map<Seq<char>, Seq<char>> {
        to_map(self.pairs())
    }
}

impl LocalStorage {
    /// The entries as pairs of texts, in the order in which their keys were
    /// first set.
    pub closed spec fn pairs(&self) -> Seq<(Seq<char>, Seq<char>)> {
        Seq::new(self.local@.len(), |i: int| (self.local@[i].0@, self.local@[i].1@))
    }

    /// The keys in the order in which [`LocalStorage::key`] numbers them.
    pub open spec fn keys(&self) -> Seq<Seq<char>> {
        keys_of(self.pairs())
    }

    /// No key is stored twice.
    pub open spec fn wf(&self) -> bool {
        distinct_keys(self.pairs())
    }

    /// The keys are the domain of the view, each once, and every entry of
    /// the list is an entry of the view.
    pub proof fn lemma_keys(&self)
        requires
            self.wf(),
        ensures
            self.keys().no_duplicates(),
            self@.dom() =~= self.keys().to_set(),
            self.keys().len() == self.pairs().len(),
            forall|i: int| 0 <= i < self.pairs().len() ==> self@.contains_key(#[trigger] self.keys()[i])
                && self@[self.keys()[i]] == self.pairs()[i].1,
    {
        lemma_to_map_keys(self.pairs());
        assert forall|i: int| 0 <= i < self.pairs().len() implies self@.contains_key(#[trigger] self.keys()[i])
            && self@[self.keys()[i]] == self.pairs()[i].1 by {
            lemma_to_map_at(self.pairs(), i);
        }
    }

    /// An empty store.
    pub fn new() -> (storage: LocalStorage)
        ensures
            storage.wf(),
            storage@ =~= Map::<Seq<char>, Seq<char>>::empty(),
            storage.keys() =~= Seq::<Seq<char>>::empty(),
    {
        let storage = LocalStorage { local: Vec::new() };
        assert(storage.pairs() =~= Seq::<(Seq<char>, Seq<char>)>::empty());
        storage
    }

    /// The position of `key` in the entry list.
    fn find(&self, key: &str) -> (found: Option<usize>)
        requires
            self.wf(),
        ensures
            match found {
                Some(i) => i < self.pairs().len() && self.pairs()[i as int].0 == key@
                    && position_of(self.pairs(), key@) == i,
                None => !has_key(self.pairs(), key@),
            },
            found is Some <==> self@.contains_key(key@),
    {
        let wanted = key.to_owned();
        let mut i: usize = 0;
        while i < self.local.len()
            invariant
                self.wf(),
                wanted@ == key@,
                i <= self.local@.len(),
                self.pairs().len() == self.local@.len(),
                forall|j: int| 0 <= j < i ==> self.pairs()[j].0 != key@,
            decreases self.local@.len() - i,
        {
            if self.local[i].0 == wanted {
                proof {
                    lemma_to_map_at(self.pairs(), i as int);
                }
                return Some(i);
            }
            i += 1;
        }
        None
    }

    /// The number of stored keys.
    pub fn len(&self) -> (n: usize)
        ensures
            n == self.keys().len(),
    {
        self.local.len()
    }

    /// Get key by its position.
    pub fn key(&self, pos: usize) -> (key: Option<String>)
        ensures
            pos < self.keys().len() ==> key is Some && key->0@ == self.keys()[pos as int],
            pos >= self.keys().len() ==> key is None,
    {
        if pos < self.local.len() {
            Some(self.local[pos].0.clone())
        } else {
            None
        }
    }

    /// The value stored under `key`.
    pub fn get(&self, key: &str) -> (value: Option<String>)
        requires
            self.wf(),
        ensures
            self@.contains_key(key@) ==> value is Some && value->0@ == self@[key@],
            !self@.contains_key(key@) ==> value is None,
    {
        match self.find(key) {
            Some(i) => Some(self.local[i].1.clone()),
            None => None,
        }
    }

    /// Stores `value` under `key`, replacing what was stored there.
    pub fn set(&mut self, key: &str, value: &str)
        requires
            old(self).wf(),
        ensures
            final(self).wf(),
            final(self)@ =~= old(self)@.insert(key@, value@),
            old(self)@.contains_key(key@) ==> final(self).keys() =~= old(self).keys(),
            !old(self)@.contains_key(key@) ==> final(self).keys() =~= old(self).keys().push(key@),
    {
        match self.find(key) {
            Some(i) => {
                let held = self.local[i].0.clone();
                self.local.set(i, (held, value.to_owned()));
                proof {
                    assert(self.pairs() =~= old(self).pairs().update(i as int, (key@, value@)));
                    lemma_to_map_update(old(self).pairs(), i as int, value@);
                }
            },
            None => {
                self.local.push((key.to_owned(), value.to_owned()));
                proof {
                    assert(self.pairs() =~= old(self).pairs().push((key@, value@)));
                    lemma_to_map_push(old(self).pairs(), key@, value@);
                }
            },
        }
    }

    /// Removes `key` and its value, if it is stored.
    pub fn remove(&mut self, key: &str)
        requires
            old(self).wf(),
        ensures
            final(self).wf(),
            final(self)@ =~= old(self)@.remove(key@),
            !old(self)@.contains_key(key@) ==> final(self).keys() =~= old(self).keys(),
            old(self)@.contains_key(key@) ==> final(self).keys() =~= old(self).keys().remove(
                old(self).keys().index_of(key@),
            ),
    {
        match self.find(key) {
            Some(i) => {
                self.local.remove(i);
                proof {
                    assert(self.pairs() =~= old(self).pairs().remove(i as int));
                    lemma_to_map_remove(old(self).pairs(), i as int);
                    old(self).lemma_keys();
                    let ks = old(self).keys();
                    assert(ks[i as int] == key@);
                    let p = ks.index_of(key@);
                    assert(0 <= p < ks.len() && ks[p] == key@);
                    assert(p == i);
                }
            },
            None => {
                proof {
                    assert(self@ =~= old(self)@.remove(key@));
                }
            },
        }
    }

    /// Removes every entry.
    pub fn clear(&mut self)
        ensures
            final(self).wf(),
            final(self)@ =~= Map::<Seq<char>, Seq<char>>::empty(),
            final(self).keys() =~= Seq::<Seq<char>>::empty(),
    {
        self.local.clear();
        assert(self.pairs() =~= Seq::<(Seq<char>, Seq<char>)>::empty());
    }
}

} // verus!
