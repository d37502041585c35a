//! A value that observers learn of when it is set.

use vstd::prelude::*;

verus! {

/// A value together with what its observers have yet to see. An observer is
/// known by the number that `observe` gave it.
pub struct NotifyCell<T> {
    value: T,
    unseen: Vec<bool>,
}

impl<T> NotifyCell<T> {
    /// The value that was set last.
    pub closed spec fn value(&self) -> T {
        self.value
    }

    /// For each observer, whether a value was set since it last polled.
    pub closed spec fn unseen(&self) -> Seq<bool> {
        self.unseen@
    }

    pub fn new(value: T) -> (cell: NotifyCell<T>)
        ensures
            cell.value() == value,
            cell.unseen() == Seq::<bool>::empty(),
    {
        NotifyCell { value, unseen: Vec::new() }
    }

    /// Sets the value, and gives every observer something to see.
    pub fn set(&mut self, value: T)
        ensures
            final(self).value() == value,
            final(self).unseen() == old(self).unseen().map_values(|seen: bool| true),
    {
        self.value = value;
        let mut i: usize = 0;
        while i < self.unseen.len()
            invariant
                i <= self.unseen@.len(),
                self.unseen@.len() == old(self).unseen().len(),
                self.value == value,
                forall|j: int| 0 <= j < i ==> self.unseen@[j],
            decreases self.unseen@.len() - i,
        {
            self.unseen.set(i, true);
            i += 1;
        }
        assert(self.unseen@ =~= old(self).unseen().map_values(|seen: bool| true));
    }

    /// Adds an observer, which has nothing to see until the next value is set.
    pub fn observe(&mut self) -> (observer: usize)
        ensures
            observer == old(self).unseen().len(),
            final(self).value() == old(self).value(),
            final(self).unseen() == old(self).unseen().push(false),
    {
        let observer = self.unseen.len();
        self.unseen.push(false);
        observer
    }

    pub fn get(&self) -> (value: &T)
        ensures
            *value == self.value(),
    {
        &self.value
    }

    pub fn has_observers(&self) -> (has_observers: bool)
        ensures
            has_observers == (self.unseen().len() > 0),
    {
        self.unseen.len() > 0
    }

    /// What an observer has to see: the value, where one was set since it last
    /// polled.
    pub fn poll(&mut self, observer: usize) -> (value: Option<&T>)
        requires
            observer < old(self).unseen().len(),
        ensures
            value == (if old(self).unseen()[observer as int] {
                Some(&old(self).value())
            } else {
                None
            }),
            final(self).value() == old(self).value(),
            final(self).unseen() == old(self).unseen().update(observer as int, false),
    {
        let unseen = self.unseen[observer];
        self.unseen.set(observer, false);
        if unseen {
            Some(&self.value)
        } else {
            None
        }
    }
}

/// A value that is set is seen by every observer, and by each of them once: polling
/// sees it, and polling again sees nothing. What one observer sees takes nothing from
/// another.
pub proof fn law_set_is_seen_once(unseen: Seq<bool>, observer: int, other: int)
    requires
        0 <= observer < unseen.len(),
        0 <= other < unseen.len(),
    ensures
        ({
            let set = unseen.map_values(|seen: bool| true);
            let polled = set.update(observer, false);
            &&& set[observer]
            &&& !polled[observer]
            &&& other != observer ==> polled[other]
        }),
{
}

} // verus!
