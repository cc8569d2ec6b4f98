//! A small map from names to values that remembers the order in which the
//! names came.
//!
//! Devices have a handful of ports and a network a few hundred devices, so
//! the map is a pair of parallel vectors searched from the front. Walking it
//! visits the names in insertion order, which makes every pass over the
//! network deterministic.
use crate::util::text::{text_eq, texts};
use vstd::prelude::*;

verus! {

pub struct NameMap<V> {
    names: Vec<String>,
    values: Vec<V>,
}

impl<V: Copy> NameMap<V> {
    /// The names in insertion order.
    pub closed spec fn names(&self) -> Seq<Seq<char>> {
        texts(self.names@)
    }

    /// The values, each at the position of its name.
    pub closed spec fn values(&self) -> Seq<V> {
        self.values@
    }

    /// There is one value for each name and no name occurs twice.
    pub open spec fn wf(&self) -> bool {
        &&& self.names().len() == self.values().len()
        &&& self.names().no_duplicates()
    }

    /// The value stored under `k`, if any.
    pub open spec fn lookup(&self, k: Seq<char>) -> Option<V> {
        if self.names().contains(k) {
            Some(self.values()[self.names().index_of(k)])
        } else {
            None
        }
    }

    /// The name at position `i` maps to the value at position `i`.
    pub proof fn lemma_lookup_at(&self, i: int)
        requires
            self.wf(),
            0 <= i < self.names().len(),
        ensures
            self.names().contains(self.names()[i]),
            self.names().index_of(self.names()[i]) == i,
            self.lookup(self.names()[i]) == Some(self.values()[i]),
    {
        let k = self.names()[i];
        assert(self.names().contains(k));
        let j = self.names().index_of(k);
        assert(self.names()[j] == k);
    }

    pub fn new() -> (r: Self)
        ensures
            r.wf(),
            r.names() == Seq::<Seq<char>>::empty(),
            r.values() == Seq::<V>::empty(),
    {
        let r = NameMap { names: Vec::new(), values: Vec::new() };
        assert(r.names() =~= Seq::<Seq<char>>::empty());
        r
    }

    pub fn len(&self) -> (r: usize)
        requires
            self.wf(),
        ensures
            r == self.names().len(),
    {
        self.names.len()
    }

    /// The name at position `i`.
    pub fn name_at(&self, i: usize) -> (r: &String)
        requires
            self.wf(),
            i < self.names().len(),
        ensures
            r@ == self.names()[i as int],
    {
        &self.names[i]
    }

    /// The value at position `i`.
    pub fn value_at(&self, i: usize) -> (r: V)
        requires
            self.wf(),
            i < self.names().len(),
        ensures
            r == self.values()[i as int],
    {
        self.values[i]
    }

    /// The position of `name`, if it is in the map.
    pub fn find(&self, name: &str) -> (r: Option<usize>)
        requires
            self.wf(),
        ensures
            match r {
                Some(i) => i < self.names().len() && self.names()[i as int] == name@
                    && self.names().index_of(name@) == i && self.names().contains(name@),
                None => !self.names().contains(name@),
            },
    {
        let mut i: usize = 0;
        while i < self.names.len()
            invariant
                self.wf(),
                i <= self.names.len(),
                forall|j: int| 0 <= j < i ==> self.names[j]@ != name@,
            decreases self.names.len() - i,
        {
            if text_eq(self.names[i].as_str(), name) {
                proof {
                    assert(self.names()[i as int] == name@);
                    self.lemma_lookup_at(i as int);
                }
                return Some(i);
            }
            i += 1;
        }
        proof {
            if self.names().contains(name@) {
                let j = self.names().index_of(name@);
                assert(self.names[j]@ == name@);
            }
        }
        None
    }

    /// The value stored under `name`, if any.
    pub fn get(&self, name: &str) -> (r: Option<V>)
        requires
            self.wf(),
        ensures
            r == self.lookup(name@),
    {
        match self.find(name) {
            Some(i) => Some(self.values[i]),
            None => None,
        }
    }

    pub fn contains_key(&self, name: &str) -> (r: bool)
        requires
            self.wf(),
        ensures
            r == self.names().contains(name@),
    {
        self.find(name).is_some()
    }

    /// Stores `v` under `name`: in place if the name is there already, else
    /// at the end.
    pub fn set(&mut self, name: String, v: V)
        requires
            old(self).wf(),
        ensures
            final(self).wf(),
            final(self).lookup(name@) == Some(v),
            forall|k: Seq<char>| k != name@ ==> final(self).lookup(k) == old(self).lookup(k),
            old(self).names().contains(name@) ==> final(self).names() == old(self).names()
                && final(self).values() == old(self).values().update(
                old(self).names().index_of(name@),
                v,
            ),
            !old(self).names().contains(name@) ==> final(self).names() == old(self).names().push(
                name@,
            ) && final(self).values() == old(self).values().push(v),
    {
        let ghost names0 = self.names();
        let ghost values0 = self.values();
        match self.find(name.as_str()) {
            Some(i) => {
                self.values.set(i, v);
                proof {
                    assert(self.names() == names0);
                    assert forall|k: Seq<char>| k != name@ implies self.lookup(k) == old(self).lookup(
                        k,
                    ) by {
                        if names0.contains(k) {
                            let j = names0.index_of(k);
                            assert(names0[j] == k);
                        }
                    }
                }
            },
            None => {
                self.names.push(name);
                self.values.push(v);
                proof {
                    assert(self.names() =~= names0.push(name@));
                    let names1 = self.names();
                    assert(names1[names0.len() as int] == name@);
                    assert(names1.contains(name@));
                    assert forall|i: int, j: int|
                        0 <= i < names1.len() && 0 <= j < names1.len() && i != j implies names1[i]
                        != names1[j] by {
                        if i < names0.len() {
                            assert(names0.contains(names0[i]));
                        }
                        if j < names0.len() {
                            assert(names0.contains(names0[j]));
                        }
                    }
                    self.lemma_lookup_at(names0.len() as int);
                    assert forall|k: Seq<char>| k != name@ implies self.lookup(k) == old(self).lookup(
                        k,
                    ) by {
                        if names0.contains(k) {
                            let j = names0.index_of(k);
                            assert(names0[j] == k);
                            assert(names1[j] == k);
                            self.lemma_lookup_at(j);
                        } else {
                            if names1.contains(k) {
                                let j = names1.index_of(k);
                                assert(names1[j] == k);
                                assert(j < names0.len());
                                assert(names0[j] == k);
                            }
                        }
                    }
                }
            },
        }
    }
}

} // verus!
