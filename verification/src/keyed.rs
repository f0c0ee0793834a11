//! An insertion-ordered store keyed by string identifiers.
//!
//! Every component of the layer keeps its per-identifier state in one of
//! these. Keys are unique; iteration follows the order of first insertion.

use vstd::prelude::*;
use crate::text::same_text;

verus! {

/// The index at which `key` occurs in `keys`, if it occurs.
pub open spec fn slot_of(keys: Seq<Seq<char>>, key: Seq<char>) -> Option<int> {
    if keys.contains(key) {
        Some(keys.index_of(key))
    } else {
        None
    }
}

/// In a duplicate-free sequence, an element's slot is the index it sits at.
pub proof fn lemma_slot_of_unique(keys: Seq<Seq<char>>, i: int)
    requires
        keys.no_duplicates(),
        0 <= i < keys.len(),
    ensures
        slot_of(keys, keys[i]) == Some(i),
{
    assert(keys.contains(keys[i]));
}

pub struct IdMap<V> {
    keys: Vec<String>,
    values: Vec<V>,
}

impl<V> IdMap<V> {
    /// The keys, in insertion order.
    pub closed spec fn keys(&self) -> Seq<Seq<char>> {
        Seq::new(self.keys@.len(), |i: int| self.keys@[i]@)
    }

    /// The values, each at the index of its key.
    pub closed spec fn values(&self) -> Seq<V> {
        self.values@
    }

    /// Keys and values line up and no key occurs twice.
    pub open spec fn wf(&self) -> bool {
        &&& self.keys().len() == self.values().len()
        &&& self.keys().no_duplicates()
    }

    pub open spec fn slot(&self, key: Seq<char>) -> Option<int> {
        slot_of(self.keys(), key)
    }

    pub fn new() -> (m: Self)
        ensures
            m.wf(),
            m.keys() == Seq::<Seq<char>>::empty(),
            m.values() == Seq::<V>::empty(),
    {
        IdMap { keys: Vec::new(), values: Vec::new() }
    }

    pub fn len(&self) -> (n: usize)
        requires
            self.wf(),
        ensures
            n == self.keys().len(),
    {
        self.keys.len()
    }

    /// The index of `key`, or `None` when it is not stored.
    pub fn find(&self, key: &str) -> (r: Option<usize>)
        requires
            self.wf(),
        ensures
            match r {
                Some(i) => self.slot(key@) == Some(i as int) && i < self.keys().len(),
                None => self.slot(key@).is_none(),
            },
    {
        let mut i: usize = 0;
        while i < self.keys.len()
            invariant
                self.wf(),
                i <= self.keys@.len(),
                forall|j: int| 0 <= j < i ==> self.keys()[j] != key@,
            decreases self.keys@.len() - i,
        {
            if same_text(self.keys[i].as_str(), key) {
                proof {
                    lemma_slot_of_unique(self.keys(), i as int);
                }
                return Some(i);
            }
            i += 1;
        }
        None
    }

    pub fn key_at(&self, i: usize) -> (k: &str)
        requires
            self.wf(),
            i < self.keys().len(),
        ensures
            k@ == self.keys()[i as int],
    {
        self.keys[i].as_str()
    }

    pub fn value_at(&self, i: usize) -> (v: &V)
        requires
            self.wf(),
            i < self.keys().len(),
        ensures
            *v == self.values()[i as int],
    {
        &self.values[i]
    }

    /// Mutable access to the value at index `i`; the keys stay as they are.
    pub fn value_at_mut(&mut self, i: usize) -> (v: &mut V)
        requires
            old(self).wf(),
            i < old(self).keys().len(),
        ensures
            *v == old(self).values()[i as int],
            final(self).keys() == old(self).keys(),
            final(self).values() == old(self).values().update(i as int, *final(v)),
    {
        &mut self.values[i]
    }

    /// Stores `value` under `key`: in place where the key is already stored,
    /// at the end otherwise.
    pub fn insert(&mut self, key: String, value: V)
        requires
            old(self).wf(),
        ensures
            final(self).wf(),
            match old(self).slot(key@) {
                Some(i) => {
                    &&& final(self).keys() == old(self).keys()
                    &&& final(self).values() == old(self).values().update(i, value)
                },
                None => {
                    &&& final(self).keys() == old(self).keys().push(key@)
                    &&& final(self).values() == old(self).values().push(value)
                },
            },
    {
        match self.find(key.as_str()) {
            Some(i) => {
                self.values[i] = value;
                assert(self.keys() == old(self).keys());
            },
            None => {
                self.keys.push(key);
                self.values.push(value);
                assert(self.keys() =~= old(self).keys().push(key@));
            },
        }
    }

    /// Takes out the entry stored under `key`, if there is one.
    pub fn remove(&mut self, key: &str) -> (r: Option<V>)
        requires
            old(self).wf(),
        ensures
            final(self).wf(),
            match old(self).slot(key@) {
                Some(i) => {
                    &&& r == Some(old(self).values()[i])
                    &&& final(self).keys() == old(self).keys().remove(i)
                    &&& final(self).values() == old(self).values().remove(i)
                },
                None => {
                    &&& r.is_none()
                    &&& final(self).keys() == old(self).keys()
                    &&& final(self).values() == old(self).values()
                },
            },
            final(self).slot(key@).is_none(),
    {
        match self.find(key) {
            Some(i) => {
                self.keys.remove(i);
                let v = self.values.remove(i);
                proof {
                    assert(self.keys() =~= old(self).keys().remove(i as int));
                    lemma_remove_keeps_distinct(old(self).keys(), i as int);
                }
                Some(v)
            },
            None => None,
        }
    }
}

/// Removing one element of a duplicate-free sequence leaves it duplicate-free
/// and without the removed element.
pub proof fn lemma_remove_keeps_distinct(keys: Seq<Seq<char>>, i: int)
    requires
        keys.no_duplicates(),
        0 <= i < keys.len(),
    ensures
        keys.remove(i).no_duplicates(),
        !keys.remove(i).contains(keys[i]),
{
    let r = keys.remove(i);
    assert forall|a: int, b: int| 0 <= a < r.len() && 0 <= b < r.len() && a != b implies r[a]
        != r[b] by {
        let a0 = if a < i { a } else { a + 1 };
        let b0 = if b < i { b } else { b + 1 };
        assert(r[a] == keys[a0] && r[b] == keys[b0]);
    }
    assert forall|a: int| 0 <= a < r.len() implies r[a] != keys[i] by {
        let a0 = if a < i { a } else { a + 1 };
        assert(r[a] == keys[a0]);
    }
}

} // verus!
