//! A map that hands out its own keys.

use std::collections::hash_map::Entry;
use std::collections::HashMap;

use vstd::prelude::*;

verus! {

/// Values under numbers that are given out in order and never again.
pub struct UsizeMap<T: Sized> {
    next_id: usize,
    inner: HashMap<usize, T>,
}

/// A map as a mathematical value.
#[verifier::ext_equal]
pub struct UsizeMapModel<T> {
    pub next_id: usize,
    pub entries: Map<usize, T>,
}

impl<T> UsizeMapModel<T> {
    /// The map once a value is added.
    pub open spec fn with(self, data: T) -> UsizeMapModel<T> {
        UsizeMapModel {
            next_id: (self.next_id + 1) as usize,
            entries: self.entries.insert(self.next_id, data),
        }
    }
}

impl<T: Sized> View for UsizeMap<T> {
    type V = UsizeMapModel<T>;

    closed spec fn view(&self) -> UsizeMapModel<T> {
        UsizeMapModel { next_id: self.next_id, entries: self.inner@ }
    }
}

impl<T: Sized> UsizeMap<T> {
    /// Every number in use was given out.
    pub open spec fn wf(&self) -> bool {
        forall|id: usize| #[trigger] self@.entries.dom().contains(id) ==> id < self@.next_id
    }

    pub fn new() -> (map: Self)
        ensures
            map.wf(),
            map@ == (UsizeMapModel { next_id: 0, entries: Map::<usize, T>::empty() }),
    {
        UsizeMap { next_id: 0, inner: HashMap::new() }
    }

    /// Adds a value, under a number that was not used before.
    pub fn add(&mut self, data: T) -> (id: usize)
        requires
            old(self).wf(),
            old(self)@.next_id < usize::MAX,
        ensures
            id == old(self)@.next_id,
            !old(self)@.entries.contains_key(id),
            final(self)@ == old(self)@.with(data),
            final(self).wf(),
    {
        broadcast use vstd::std_specs::hash::group_hash_axioms;

        let id: usize = self.next_id;
        self.next_id += 1;
        self.inner.insert(id, data);
        proof {
            assert(self@ == old(self)@.with(data));
            assert forall|other: usize| #[trigger]
                self@.entries.dom().contains(other) implies other < self@.next_id by {
                if other != id {
                    assert(old(self)@.entries.dom().contains(other));
                }
            }
        }
        id
    }

    pub fn get(&self, index: &usize) -> (data: Option<&T>)
        ensures
            data == (if self@.entries.contains_key(*index) {
                Some(&self@.entries[*index])
            } else {
                None
            }),
    {
        broadcast use vstd::std_specs::hash::group_hash_axioms;

        self.inner.get(index)
    }

    /// Takes a value out. Its number is not given out again.
    pub fn remove(&mut self, index: &usize) -> (data: Option<T>)
        ensures
            data == (if old(self)@.entries.contains_key(*index) {
                Some(old(self)@.entries[*index])
            } else {
                None
            }),
            final(self)@ == (UsizeMapModel {
                entries: old(self)@.entries.remove(*index),
                ..old(self)@
            }),
            old(self).wf() ==> final(self).wf(),
    {
        broadcast use vstd::std_specs::hash::group_hash_axioms;

        let data = self.inner.remove(index);
        proof {
            assert(self@.entries == old(self)@.entries.remove(*index));
            if old(self).wf() {
                assert forall|other: usize| #[trigger]
                    self@.entries.dom().contains(other) implies other < self@.next_id by {
                    assert(old(self)@.entries.dom().contains(other));
                }
            }
        }
        data
    }

    /// The value under a number, to be changed in place.
    pub fn get_mut(&mut self, index: &usize) -> (data: Option<&mut T>)
        ensures
            match data {
                Some(data) => old(self)@.entries.contains_key(*index) && *data
                    == old(self)@.entries[*index] && final(self)@ == (UsizeMapModel {
                    entries: old(self)@.entries.insert(*index, *final(data)),
                    ..old(self)@
                }),
                None => !old(self)@.entries.contains_key(*index) && final(self)@ == old(self)@,
            },
            old(self).wf() ==> final(self).wf(),
    {
        broadcast use vstd::std_specs::hash::group_hash_axioms;

        match self.inner.entry(*index) {
            Entry::Occupied(entry) => Some(entry.into_mut()),
            Entry::Vacant(_) => None,
        }
    }

    /// Every number in use, in any order.
    pub fn keys(&self) -> (keys: Vec<usize>)
        ensures
            keys@.no_duplicates(),
            keys@.to_set() == self@.entries.dom(),
    {
        broadcast use vstd::std_specs::hash::group_hash_axioms;

        let mut keys: Vec<usize> = Vec::new();
        for key in all: self.inner.keys()
            invariant
                keys@ == all.seq().unref().take(all.index() as int),
                all.seq().unref().to_set() == self.inner@.dom(),
                all.seq().no_duplicates(),
                all.index() == all.seq().len() ==> keys@ =~= all.seq().unref(),
        {
            keys.push(*key);
            assert(keys@ =~= all.seq().unref().take(all.index() + 1));
        }
        keys
    }

    /// Every number in use with its value, in any order.
    pub fn iter(&self) -> (entries: Vec<(usize, &T)>)
        ensures
            forall|i: int|
                0 <= i < entries@.len() ==> self@.entries.contains_key(
                    (#[trigger] entries@[i]).0,
                ) && *entries@[i].1 == self@.entries[entries@[i].0],
            entries@.map_values(|entry: (usize, &T)| entry.0).no_duplicates(),
            entries@.map_values(|entry: (usize, &T)| entry.0).to_set() == self@.entries.dom(),
    {
        let keys = self.keys();
        let mut entries: Vec<(usize, &T)> = Vec::new();
        let mut i: usize = 0;
        while i < keys.len()
            invariant
                i <= keys@.len(),
                entries@.len() == i,
                keys@.to_set() == self@.entries.dom(),
                forall|j: int|
                    0 <= j < i ==> (#[trigger] entries@[j]).0 == keys@[j]
                        && self@.entries.contains_key(keys@[j]) && *entries@[j].1
                        == self@.entries[keys@[j]],
            decreases keys@.len() - i,
        {
            assert(keys@.to_set().contains(keys@[i as int]));
            if let Some(data) = self.get(&keys[i]) {
                entries.push((keys[i], data));
            }
            i += 1;
        }
        assert(entries@.map_values(|entry: (usize, &T)| entry.0) =~= keys@);
        entries
    }
}

/// A value that was added is found under the number that it got, until it is
/// removed.
pub proof fn law_added_is_found<T>(map: UsizeMapModel<T>, data: T, other: T)
    requires
        map.next_id < usize::MAX - 1,
    ensures
        map.with(data).entries.contains_key(map.next_id),
        map.with(data).entries[map.next_id] == data,
        map.with(data).with(other).entries[map.next_id] == data,
        !map.with(data).entries.remove(map.next_id).contains_key(map.next_id),
{
}

/// A number that was given out is not given out again, whether or not what it
/// stood for was removed.
pub proof fn law_numbers_are_not_reused<T>(map: UsizeMapModel<T>, data: T, removed: usize)
    requires
        map.next_id < usize::MAX,
        removed < map.next_id,
    ensures
        (UsizeMapModel { entries: map.entries.remove(removed), ..map }).with(data).entries.contains_key(
            removed,
        ) == false,
{
}

} // verus!
