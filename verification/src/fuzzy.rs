//! Fuzzy matching: a query matches where its characters occur in order.

use vstd::prelude::*;

verus! {

/// How much of a query is found in some characters, where each character of the
/// query is taken at the first place that is left for it. The first `found`
/// characters of the query were found before.
pub open spec fn consumed(query: Seq<char>, found: nat, chars: Seq<char>) -> nat
    decreases chars.len(),
{
    if chars.len() == 0 {
        found
    } else {
        let before = consumed(query, found, chars.drop_last());
        if before < query.len() && query[before as int] == chars.last() {
            before + 1
        } else {
            before
        }
    }
}

/// Whether the characters of a query occur in order among some characters.
pub open spec fn is_match(query: Seq<char>, chars: Seq<char>) -> bool {
    consumed(query, 0, chars) == query.len()
}

/// Whether places among some characters spell the first characters of a query in
/// order.
pub open spec fn spells(query: Seq<char>, chars: Seq<char>, places: Seq<int>) -> bool {
    &&& places.len() <= query.len()
    &&& forall|i: int| 0 <= i < places.len() ==> 0 <= #[trigger] places[i] < chars.len()
    &&& forall|i: int| 0 <= i < places.len() ==> chars[#[trigger] places[i]] == query[i]
    &&& forall|i: int, j: int| 0 <= i < j < places.len() ==> places[i] < places[j]
}

/// No more than the query is found.
pub proof fn lemma_consumed(query: Seq<char>, found: nat, chars: Seq<char>)
    requires
        found <= query.len(),
    ensures
        found <= consumed(query, found, chars) <= query.len(),
    decreases chars.len(),
{
    if chars.len() > 0 {
        lemma_consumed(query, found, chars.drop_last());
    }
}

/// Characters can be searched in two parts.
pub proof fn lemma_consumed_parts(query: Seq<char>, found: nat, first: Seq<char>, second: Seq<char>)
    ensures
        consumed(query, found, first + second) == consumed(
            query,
            consumed(query, found, first),
            second,
        ),
    decreases second.len(),
{
    if second.len() == 0 {
        assert(first + second =~= first);
    } else {
        assert((first + second).drop_last() =~= first + second.drop_last());
        lemma_consumed_parts(query, found, first, second.drop_last());
    }
}

/// Places that spell as much of a query as is found.
proof fn lemma_consumed_spells(query: Seq<char>, chars: Seq<char>) -> (places: Seq<int>)
    ensures
        spells(query, chars, places),
        places.len() == consumed(query, 0, chars),
    decreases chars.len(),
{
    if chars.len() == 0 {
        Seq::empty()
    } else {
        let shorter = chars.drop_last();
        let places = lemma_consumed_spells(query, shorter);
        lemma_consumed(query, 0, chars);
        if consumed(query, 0, chars) > consumed(query, 0, shorter) {
            let more = places.push(shorter.len() as int);
            assert forall|i: int| 0 <= i < more.len() implies chars[#[trigger] more[i]]
                == query[i] by {
                if i < places.len() {
                    assert(shorter[places[i]] == query[i]);
                }
            }
            more
        } else {
            places
        }
    }
}

/// As much as any places spell is found.
proof fn lemma_spelled_is_consumed(query: Seq<char>, chars: Seq<char>, places: Seq<int>)
    requires
        spells(query, chars, places),
    ensures
        places.len() <= consumed(query, 0, chars),
    decreases chars.len(),
{
    lemma_consumed(query, 0, chars);
    if places.len() > 0 {
        let shorter = chars.drop_last();
        lemma_consumed(query, 0, shorter);
        if places.last() == chars.len() - 1 {
            let fewer = places.drop_last();
            assert(spells(query, shorter, fewer)) by {
                assert forall|i: int| 0 <= i < fewer.len() implies 0 <= #[trigger] fewer[i]
                    < shorter.len() by {
                    assert(places[i] < places[places.len() - 1]);
                }
            }
            lemma_spelled_is_consumed(query, shorter, fewer);
        } else {
            assert(spells(query, shorter, places)) by {
                assert forall|i: int| 0 <= i < places.len() implies 0 <= #[trigger] places[i]
                    < shorter.len() by {
                    if i < places.len() - 1 {
                        assert(places[i] < places[places.len() - 1]);
                    }
                }
            }
            lemma_spelled_is_consumed(query, shorter, places);
        }
    }
}

/// A query matches just where there are places that spell it.
pub proof fn law_match_is_subsequence(query: Seq<char>, chars: Seq<char>)
    ensures
        is_match(query, chars) <==> exists|places: Seq<int>| #[trigger]
            spells(query, chars, places) && places.len() == query.len(),
{
    if is_match(query, chars) {
        let places = lemma_consumed_spells(query, chars);
        assert(spells(query, chars, places));
    }
    if exists|places: Seq<int>| #[trigger]
        spells(query, chars, places) && places.len() == query.len() {
        let places = choose|places: Seq<int>| #[trigger]
            spells(query, chars, places) && places.len() == query.len();
        lemma_spelled_is_consumed(query, chars, places);
        lemma_consumed(query, 0, chars);
    }
}

/// Where a query matches, it matches with more characters behind.
pub proof fn law_match_extends(query: Seq<char>, chars: Seq<char>, more: Seq<char>)
    requires
        is_match(query, chars),
    ensures
        is_match(query, chars + more),
{
    lemma_consumed_parts(query, 0, chars, more);
    lemma_consumed(query, query.len(), more);
}

/// Matches a query against characters that come in components, the last of which
/// can be taken back.
pub struct Matcher {
    query: Vec<char>,
    /// How much of the query was found after each component.
    stack: Vec<usize>,
}

impl Matcher {
    pub closed spec fn query(&self) -> Seq<char> {
        self.query@
    }

    /// How much of the query was found after each component.
    pub closed spec fn stack(&self) -> Seq<usize> {
        self.stack@
    }

    /// How much of the query is found.
    pub open spec fn found(&self) -> nat {
        if self.stack().len() == 0 {
            0
        } else {
            self.stack().last() as nat
        }
    }

    pub fn new(query: Vec<char>) -> (matcher: Matcher)
        ensures
            matcher.query() == query@,
            matcher.stack() == Seq::<usize>::empty(),
    {
        Matcher { query, stack: Vec::new() }
    }

    /// Adds a component, and says whether the query matches now.
    pub fn push(&mut self, component: &Vec<char>) -> (matches: bool)
        requires
            old(self).found() <= old(self).query().len(),
        ensures
            final(self).query() == old(self).query(),
            final(self).stack().drop_last() == old(self).stack(),
            final(self).stack().len() == old(self).stack().len() + 1,
            final(self).found() == consumed(old(self).query(), old(self).found(), component@),
            final(self).found() <= final(self).query().len(),
            matches == (final(self).found() == old(self).query().len()),
    {
        let mut found: usize = if self.stack.len() == 0 {
            0
        } else {
            self.stack[self.stack.len() - 1]
        };
        let ghost first = found as nat;
        let mut i: usize = 0;
        assert(component@.take(0) =~= Seq::empty());
        while i < component.len()
            invariant
                i <= component@.len(),
                found <= self.query@.len(),
                found == consumed(self.query@, first, component@.take(i as int)),
            decreases component@.len() - i,
        {
            assert(component@.take(i + 1).drop_last() =~= component@.take(i as int));
            if found < self.query.len() && self.query[found] == component[i] {
                found += 1;
            }
            i += 1;
        }
        assert(component@.take(i as int) =~= component@);
        self.stack.push(found);
        assert(self.stack@.drop_last() =~= old(self).stack@);
        found == self.query.len()
    }

    /// Takes the last component back.
    pub fn pop(&mut self)
        requires
            old(self).stack().len() > 0,
        ensures
            final(self).query() == old(self).query(),
            final(self).stack() == old(self).stack().drop_last(),
    {
        let _ = self.stack.pop();
    }
}

} // verus!
