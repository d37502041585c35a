//! A set that does not keep its members alive.

use std::rc::{Rc, Weak};

use vstd::prelude::*;

verus! {

/// `std::rc::Weak`: a reference that does not keep what it refers to alive.
#[verifier::external_body]
#[verifier::reject_recursive_types(T)]
struct WeakRef<T>(Weak<T>);

/// `Rc::downgrade`: a reference to a value that does not keep it alive. What comes of
/// following it is stated with `upgrade`.
#[verifier::external_body]
fn downgrade<T>(data: &Rc<T>) -> (weak: WeakRef<T>) {
    WeakRef(Rc::downgrade(data))
}

/// `Weak::upgrade`: one more owner of the value that a reference was made from, or
/// nothing where that value is gone. Which of the two it is is not stated: that
/// depends on who holds the value at the time. Nor is it stated that owners of equal
/// values are owners of one: what an `Rc` is, is what it holds.
#[verifier::external_body]
fn upgrade<T>(weak: &WeakRef<T>) -> (answer: Option<Rc<T>>)
    ensures
        answer matches Some(data) ==> forall|origin: Rc<T>| #[trigger]
            call_ensures(downgrade::<T>, (&origin,), *weak) ==> data == origin,
{
    weak.0.upgrade()
}

/// `Rc::clone`: another owner of the same value. That it is the same one, and not one
/// that is equal, is not stated: what an `Rc` is, is what it holds.
#[verifier::external_body]
pub(crate) fn share<T>(data: &Rc<T>) -> (other: Rc<T>)
    ensures
        other == *data,
{
    data.clone()
}

/// A reference, together with what it was made from.
#[verifier::reject_recursive_types(T)]
struct Member<T> {
    weak: WeakRef<T>,
    data: Ghost<Rc<T>>,
}

impl<T> Member<T> {
    #[verifier::type_invariant]
    spec fn refers(self) -> bool {
        call_ensures(downgrade::<T>, (&self.data@,), self.weak)
    }
}

/// Members that belong to whoever holds them. One that nobody holds any more is
/// dropped when the set is next searched.
#[verifier::reject_recursive_types(T)]
pub struct WeakSet<T: Sized>(Vec<Member<T>>);

/// The members that are still there, given what each was found to be.
pub open spec fn kept<T>(members: Seq<T>, answers: Seq<Option<Rc<T>>>) -> Seq<T>
    decreases members.len(),
{
    if members.len() == 0 {
        Seq::empty()
    } else {
        let fewer = kept(members.drop_last(), answers);
        if answers[members.len() - 1] is Some {
            fewer.push(members.last())
        } else {
            fewer
        }
    }
}

/// The last of what was found among the first few that matches.
pub open spec fn last_match<T>(
    answers: Seq<Option<Rc<T>>>,
    matches: Seq<bool>,
    count: int,
) -> Option<Rc<T>>
    decreases count,
{
    if count <= 0 {
        None
    } else if answers[count - 1] is Some && matches[count - 1] {
        answers[count - 1]
    } else {
        last_match(answers, matches, count - 1)
    }
}

/// Whether what was found is what the members are.
pub open spec fn answers_fit<T>(members: Seq<T>, answers: Seq<Option<Rc<T>>>) -> bool {
    &&& answers.len() == members.len()
    &&& forall|i: int|
        0 <= i < members.len() ==> (#[trigger] answers[i] matches Some(data) ==> *data
            == members[i])
}

/// Whether a comparison says of each that was found whether it matches.
pub open spec fn compared<T, F>(
    comparison: F,
    answers: Seq<Option<Rc<T>>>,
    matches: Seq<bool>,
) -> bool where F: Fn(Rc<T>) -> bool {
    &&& matches.len() == answers.len()
    &&& forall|i: int|
        0 <= i < answers.len() ==> (#[trigger] answers[i] matches Some(data)
            ==> comparison.ensures((data,), matches[i]))
}

impl<T: Sized> View for WeakSet<T> {
    type V = Seq<T>;

    closed spec fn view(&self) -> Seq<T> {
        self.0@.map_values(|member: Member<T>| *member.data@)
    }
}

impl<T: Sized> WeakSet<T> {
    /// Whether a member was found to be gone, or to be there, when its reference was
    /// followed.
    pub closed spec fn answered(&self, i: int, answer: Option<Rc<T>>) -> bool {
        call_ensures(upgrade::<T>, (&self.0@[i].weak,), answer)
    }

    /// Whether what stands for a member is a reference that was made from it.
    pub closed spec fn refers_to(&self, i: int, data: Rc<T>) -> bool {
        call_ensures(downgrade::<T>, (&data,), self.0@[i].weak)
    }

    /// Whether each member was found to be what is given.
    pub open spec fn all_answered(&self, answers: Seq<Option<Rc<T>>>) -> bool {
        &&& answers_fit(self@, answers)
        &&& forall|i: int| 0 <= i < self@.len() ==> self.answered(i, #[trigger] answers[i])
    }

    pub fn new() -> (set: WeakSet<T>)
        ensures
            set@ == Seq::<T>::empty(),
    {
        let set = WeakSet(Vec::new());
        assert(set@ =~= Seq::<T>::empty());
        set
    }

    /// Adds a member, and hands out the one owner of it.
    pub fn insert(&mut self, data: T) -> (member: Rc<T>)
        ensures
            *member == data,
            final(self)@ == old(self)@.push(data),
            final(self).refers_to(old(self)@.len() as int, member),
    {
        let member = Rc::new(data);
        let weak = downgrade(&member);
        self.0.push(Member { weak, data: Ghost(member) });
        assert(self@ =~= old(self)@.push(data));
        member
    }

    /// Follows the reference to each member.
    fn answers(&self) -> (answers: Vec<Option<Rc<T>>>)
        ensures
            self.all_answered(answers@),
    {
        let mut answers: Vec<Option<Rc<T>>> = Vec::new();
        let mut i: usize = 0;
        while i < self.0.len()
            invariant
                i <= self.0@.len(),
                answers@.len() == i,
                forall|j: int|
                    0 <= j < i ==> self.answered(j, #[trigger] answers@[j]) && (
                    answers@[j] matches Some(data) ==> *data == self@[j]),
            decreases self.0@.len() - i,
        {
            let member = &self.0[i];
            proof {
                use_type_invariant(member);
            }
            let answer = upgrade(&member.weak);
            assert(call_ensures(upgrade::<T>, (&self.0@[i as int].weak,), answer));
            answers.push(answer);
            i += 1;
        }
        answers
    }

    /// Drops the members that are gone, and hands out the last of the rest that a
    /// comparison picks, given what was found of each.
    pub fn retain_and_find<F>(
        &mut self,
        answers: &Vec<Option<Rc<T>>>,
        comparison: &F,
    ) -> (found: Option<Rc<T>>) where F: Fn(Rc<T>) -> bool
        requires
            answers@.len() == old(self)@.len(),
            forall|member: Rc<T>| #[trigger] comparison.requires((member,)),
        ensures
            final(self)@ == kept(old(self)@, answers@),
            exists|matches: Seq<bool>|
                compared(*comparison, answers@, matches) && found == #[trigger] last_match(
                    answers@,
                    matches,
                    answers@.len() as int,
                ),
    {
        let ghost members = self@;
        let ghost mut matches: Seq<bool> = Seq::empty();
        let mut found: Option<Rc<T>> = None;
        let mut left: Vec<Member<T>> = Vec::new();
        let mut rest: Vec<Member<T>> = Vec::new();
        rest.append(&mut self.0);
        let mut i: usize = 0;
        assert(members.take(0) =~= Seq::empty());
        assert(rest@.skip(0) =~= rest@);
        let ghost all = rest@;
        assert(members =~= all.map_values(|member: Member<T>| *member.data@));
        assert(left@.map_values(|member: Member<T>| *member.data@) =~= Seq::empty());
        while i < answers.len()
            invariant
                members == all.map_values(|member: Member<T>| *member.data@),
                i <= answers@.len(),
                answers@.len() == members.len(),
                rest@ == all.skip(i as int),
                matches.len() == i,
                forall|member: Rc<T>| #[trigger] comparison.requires((member,)),
                forall|j: int|
                    0 <= j < i ==> (#[trigger] answers@[j] matches Some(data)
                        ==> comparison.ensures((data,), matches[j])),
                left@.map_values(|member: Member<T>| *member.data@) == kept(
                    members.take(i as int),
                    answers@,
                ),
                found == last_match(answers@, matches, i as int),
            decreases answers@.len() - i,
        {
            let ghost before = left@;
            let ghost old_matches = matches;
            let member = rest.remove(0);
            proof {
                assert(rest@ =~= all.skip(i + 1));
                assert(members.take(i + 1).drop_last() =~= members.take(i as int));
            }
            match &answers[i] {
                Some(data) => {
                    let matched: bool = comparison(share(data));
                    proof {
                        matches = matches.push(matched);
                        lemma_last_match_agrees(answers@, old_matches, matches, i as int);
                    }
                    if matched {
                        found = Some(share(data));
                    }
                    left.push(member);
                    assert(left@.map_values(|member: Member<T>| *member.data@)
                        =~= before.map_values(|member: Member<T>| *member.data@).push(
                        members[i as int],
                    ));
                },
                None => {
                    proof {
                        matches = matches.push(false);
                        lemma_last_match_agrees(answers@, old_matches, matches, i as int);
                    }
                },
            }
            i += 1;
        }
        assert(members.take(i as int) =~= members);
        assert(compared(*comparison, answers@, matches));
        self.0 = left;
        found
    }

    /// Drops the members that nobody holds any more, and hands out the last of the
    /// rest that a comparison picks.
    pub fn find<F>(&mut self, comparison: &F) -> (found: Option<Rc<T>>) where
        F: Fn(Rc<T>) -> bool,

        requires
            forall|member: Rc<T>| #[trigger] comparison.requires((member,)),
        ensures
            exists|answers: Seq<Option<Rc<T>>>, matches: Seq<bool>|
                {
                    &&& old(self).all_answered(answers)
                    &&& final(self)@ == kept(old(self)@, answers)
                    &&& compared(*comparison, answers, matches)
                    &&& found == #[trigger] last_match(answers, matches, answers.len() as int)
                },
    {
        let answers = self.answers();
        self.retain_and_find(&answers, comparison)
    }
}

/// What is found is a member that is still there and matches.
pub proof fn law_found_is_held_and_matches<T>(
    answers: Seq<Option<Rc<T>>>,
    matches: Seq<bool>,
    count: int,
) -> (index: int)
    requires
        last_match(answers, matches, count) is Some,
    ensures
        0 <= index < count,
        answers[index] is Some,
        matches[index],
        last_match(answers, matches, count) == answers[index],
    decreases count,
{
    let last = count - 1;
    if answers[last] is Some && matches[last] {
        last
    } else {
        law_found_is_held_and_matches(answers, matches, last)
    }
}

/// What matches beyond the first few does not matter.
proof fn lemma_last_match_agrees<T>(
    answers: Seq<Option<Rc<T>>>,
    some: Seq<bool>,
    more: Seq<bool>,
    count: int,
)
    requires
        count <= some.len(),
        forall|i: int| 0 <= i < count ==> some[i] == more[i],
    ensures
        last_match(answers, some, count) == last_match(answers, more, count),
    decreases count,
{
    if count > 0 {
        lemma_last_match_agrees(answers, some, more, count - 1);
    }
}

/// A member that is still there stays, and where one that is there matches, one is
/// found.
pub proof fn law_held_members_stay<T>(
    members: Seq<T>,
    answers: Seq<Option<Rc<T>>>,
    matches: Seq<bool>,
    index: int,
)
    requires
        members.len() <= answers.len(),
        members.len() <= matches.len(),
        0 <= index < members.len(),
        answers[index] is Some,
    ensures
        kept(members, answers).contains(members[index]),
        matches[index] ==> last_match(answers, matches, members.len() as int) is Some,
    decreases members.len(),
{
    let last = members.len() - 1;
    if index < last {
        let fewer = members.drop_last();
        law_held_members_stay(fewer, answers, matches, index);
        let place = choose|i: int|
            0 <= i < kept(fewer, answers).len() && kept(fewer, answers)[i] == members[index];
        assert(kept(members, answers)[place] == members[index]);
    } else {
        assert(kept(members, answers).last() == members[index]);
    }
}

/// What is kept was there before, and in the same order.
pub proof fn law_kept_are_members<T>(members: Seq<T>, answers: Seq<Option<Rc<T>>>) -> (places: Seq<
    int,
>)
    ensures
        places.len() == kept(members, answers).len(),
        forall|k: int|
            0 <= k < places.len() ==> 0 <= #[trigger] places[k] < members.len()
                && answers[places[k]] is Some && kept(members, answers)[k] == members[places[k]],
        forall|j: int, k: int| 0 <= j < k < places.len() ==> places[j] < places[k],
    decreases members.len(),
{
    if members.len() == 0 {
        Seq::empty()
    } else {
        let fewer = law_kept_are_members(members.drop_last(), answers);
        if answers[members.len() - 1] is Some {
            fewer.push(members.len() - 1)
        } else {
            fewer
        }
    }
}

} // verus!
