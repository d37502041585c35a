//! Facts about sequences.

use vstd::prelude::*;

verus! {

/// What is in one of several sequences is in all of them one after the other.
pub proof fn lemma_flattened<A>(parts: Seq<Seq<A>>, index: int, place: int)
    requires
        0 <= index < parts.len(),
        0 <= place < parts[index].len(),
    ensures
        parts.flatten().contains(parts[index][place]),
    decreases parts.len(),
{
    let rest = parts.drop_first();
    if index == 0 {
        assert(parts.flatten()[place] == parts[index][place]);
    } else {
        assert(rest[index - 1] == parts[index]);
        lemma_flattened(rest, index - 1, place);
        let at = choose|at: int|
            0 <= at < rest.flatten().len() && rest.flatten()[at] == parts[index][place];
        assert(parts.flatten()[parts.first().len() + at] == parts[index][place]);
    }
}

/// What is in several sequences one after the other is in one of them.
pub proof fn lemma_unflattened<A>(parts: Seq<Seq<A>>, at: int) -> (found: (int, int))
    requires
        0 <= at < parts.flatten().len(),
    ensures
        0 <= found.0 < parts.len(),
        0 <= found.1 < parts[found.0].len(),
        parts[found.0][found.1] == parts.flatten()[at],
    decreases parts.len(),
{
    let rest = parts.drop_first();
    assert(parts.flatten() == parts.first() + rest.flatten());
    if at < parts.first().len() {
        (0, at)
    } else {
        let found = lemma_unflattened(rest, at - parts.first().len());
        assert(parts[found.0 + 1] == rest[found.0]);
        (found.0 + 1, found.1)
    }
}

/// What is picked out of a sequence is in it, and is to be picked.
pub proof fn lemma_filtered<A>(items: Seq<A>, keep: spec_fn(A) -> bool, place: int)
    requires
        0 <= place < items.filter(keep).len(),
    ensures
        keep(items.filter(keep)[place]),
        items.contains(items.filter(keep)[place]),
    decreases items.len(),
{
    reveal(Seq::filter);
    let fewer = items.drop_last();
    let item = items.filter(keep)[place];
    if place < fewer.filter(keep).len() {
        lemma_filtered(fewer, keep, place);
        let at = choose|at: int| 0 <= at < fewer.len() && fewer[at] == item;
        assert(items[at] == item);
    } else {
        assert(items[items.len() - 1] == item);
    }
}

/// The items that are picked, where just those from one place up to another are.
pub proof fn lemma_filter_is_stretch<A>(
    items: Seq<A>,
    keep: spec_fn(A) -> bool,
    start: int,
    end: int,
)
    requires
        0 <= start <= end <= items.len(),
        forall|i: int| 0 <= i < items.len() ==> (keep(#[trigger] items[i]) <==> start <= i < end),
    ensures
        items.filter(keep) == items.subrange(start, end),
    decreases items.len(),
{
    reveal(Seq::filter);
    if items.len() > 0 {
        let fewer = items.drop_last();
        let last = items.len() - 1;
        assert(keep(items[last]) <==> start <= last < end);
        assert forall|i: int| 0 <= i < fewer.len() implies (keep(#[trigger] fewer[i]) <==> start
            <= i < end) by {
            assert(fewer[i] == items[i]);
        }
        if end == items.len() {
            if start == end {
                lemma_filter_is_stretch(fewer, keep, start - 1, end - 1);
            } else {
                lemma_filter_is_stretch(fewer, keep, start, end - 1);
                assert(items.subrange(start, end) =~= fewer.subrange(start, end - 1).push(
                    items[last],
                ));
            }
        } else {
            lemma_filter_is_stretch(fewer, keep, start, end);
        }
        assert(items.filter(keep) =~= items.subrange(start, end));
    } else {
        assert(items.filter(keep) =~= items.subrange(start, end));
    }
}

} // verus!
