//! What is kept for each path.

use std::rc::Rc;

use vstd::prelude::*;

use crate::weak_set::share;

verus! {

/// One value for each of some paths, made when it is first asked for.
pub struct Cache<T>(Vec<(String, Rc<T>)>);

/// The values of a list, by their paths. Of values with one path, the last counts.
pub open spec fn value_map<T>(entries: Seq<(String, Rc<T>)>) -> Map<Seq<char>, T>
    decreases entries.len(),
{
    if entries.len() == 0 {
        Map::empty()
    } else {
        value_map(entries.drop_last()).insert(entries.last().0@, *entries.last().1)
    }
}

proof fn lemma_value_map<T>(entries: Seq<(String, Rc<T>)>)
    ensures
        forall|i: int|
            0 <= i < entries.len() ==> value_map(entries).contains_key((#[trigger] entries[i]).0@),
        forall|path: Seq<char>| #[trigger]
            value_map(entries).contains_key(path) ==> exists|i: int|
                0 <= i < entries.len() && (#[trigger] entries[i]).0@ == path && value_map(
                    entries,
                )[path] == *entries[i].1 && forall|j: int|
                    i < j < entries.len() ==> (#[trigger] entries[j]).0@ != path,
    decreases entries.len(),
{
    if entries.len() > 0 {
        let fewer = entries.drop_last();
        lemma_value_map(fewer);
        assert forall|i: int| 0 <= i < entries.len() implies value_map(entries).contains_key(
            (#[trigger] entries[i]).0@,
        ) by {
            if i < fewer.len() {
                assert(fewer[i] == entries[i]);
            }
        }
        assert forall|path: Seq<char>| #[trigger]
            value_map(entries).contains_key(path) implies exists|i: int|
            0 <= i < entries.len() && (#[trigger] entries[i]).0@ == path && value_map(
                entries,
            )[path] == *entries[i].1 && forall|j: int|
                i < j < entries.len() ==> (#[trigger] entries[j]).0@ != path by {
            let last = entries.len() - 1;
            if path == entries.last().0@ {
                assert(entries[last].0@ == path);
            } else {
                assert(value_map(fewer).contains_key(path));
                let i = choose|i: int|
                    0 <= i < fewer.len() && (#[trigger] fewer[i]).0@ == path && value_map(
                        fewer,
                    )[path] == *fewer[i].1 && forall|j: int|
                        i < j < fewer.len() ==> (#[trigger] fewer[j]).0@ != path;
                assert(entries[i] == fewer[i]);
                assert forall|j: int| i < j < entries.len() implies (#[trigger] entries[j]).0@
                    != path by {
                    if j < last {
                        assert(fewer[j] == entries[j]);
                    }
                }
            }
        }
    }
}

impl<T> View for Cache<T> {
    type V = Map<Seq<char>, T>;

    closed spec fn view(&self) -> Map<Seq<char>, T> {
        value_map(self.0@)
    }
}

impl<T> Cache<T> {
    pub fn new() -> (cache: Cache<T>)
        ensures
            cache@ == Map::<Seq<char>, T>::empty(),
    {
        Cache(Vec::new())
    }

    /// The value of a path.
    pub fn get(&self, path: &String) -> (value: Option<Rc<T>>)
        ensures
            match value {
                Some(value) => self@.contains_key(path@) && self@[path@] == *value,
                None => !self@.contains_key(path@),
            },
    {
        let mut i: usize = self.0.len();
        while i > 0
            invariant
                i <= self.0@.len(),
                forall|j: int| i <= j < self.0@.len() ==> (#[trigger] self.0@[j]).0@ != path@,
            decreases i,
        {
            i -= 1;
            if self.0[i].0 == *path {
                proof {
                    lemma_value_map(self.0@);
                    assert(self@.contains_key(self.0@[i as int].0@));
                    let k = choose|k: int|
                        0 <= k < self.0@.len() && (#[trigger] self.0@[k]).0@ == path@ && value_map(
                            self.0@,
                        )[path@] == *self.0@[k].1 && forall|j: int|
                            k < j < self.0@.len() ==> (#[trigger] self.0@[j]).0@ != path@;
                    assert(k == i);
                }
                return Some(share(&self.0[i].1));
            }
        }
        proof {
            lemma_value_map(self.0@);
        }
        None
    }

    /// The value of a path. Where there is none, one is made, and kept.
    pub fn get_or_make<F>(&mut self, path: String, make: F) -> (value: Rc<T>) where F: FnOnce() -> T
        requires
            !old(self)@.contains_key(path@) ==> make.requires(()),
        ensures
            old(self)@.contains_key(path@) ==> *value == old(self)@[path@] && *final(self)
                == *old(self),
            !old(self)@.contains_key(path@) ==> make.ensures((), *value) && final(self)@ == old(
                self,
            )@.insert(path@, *value),
    {
        match self.get(&path) {
            Some(value) => value,
            None => {
                let value: Rc<T> = Rc::new(make());
                self.0.push((path, share(&value)));
                assert(self.0@.drop_last() =~= old(self).0@);
                value
            },
        }
    }
}

/// The value of a path, once it is made, is the same each time it is asked for.
pub proof fn law_value_is_kept<T>(cache: Map<Seq<char>, T>, path: Seq<char>, value: T, other: Seq<
    char,
>, more: T)
    requires
        other == path ==> more == value,
    ensures
        cache.insert(path, value).insert(other, more)[path] == value,
{
}

} // verus!
