//! Which files a search finds, by the directories that each of them is in.

use vstd::prelude::*;

use crate::fs::{Entry, EntryId};
use crate::fuzzy;
use crate::path_search::{
    self, CandidateModel, MatchMarker, PathSearch, PathSearchResult, Place, Scoring, TreeId,
};
use crate::sequences;

verus! {

/// The way to each file among some entries and in them, in the order in which they
/// stand: the directories that the file is in, from the outermost on, and the file.
pub open spec fn ways_in(above: Seq<Entry>, entries: Seq<Entry>) -> Seq<Seq<Entry>>
    decreases entries,
{
    if entries.len() == 0 {
        Seq::empty()
    } else {
        ways_in(above, entries.drop_last()) + entry_ways(above, entries.last())
    }
}

pub open spec fn entry_ways(above: Seq<Entry>, entry: Entry) -> Seq<Seq<Entry>>
    decreases entry,
{
    match entry.children {
        Some(children) => ways_in(above.push(entry), children@),
        None => seq![above.push(entry)],
    }
}

/// A path as it is spelled: a directory has a slash behind its name.
pub open spec fn spelled(way: Seq<Entry>) -> Seq<Seq<char>> {
    way.map_values(
        |entry: Entry|
            if entry.children is Some {
                entry.name@ + seq!['/']
            } else {
                entry.name@
            },
    )
}

/// Whether no entry of a way is ignored.
pub open spec fn none_ignored(way: Seq<Entry>) -> bool {
    forall|i: int| 0 <= i < way.len() ==> !(#[trigger] way[i]).ignored
}

/// Whether the first entries of a way match a query, with no ignored one among them.
pub open spec fn is_touched(query: Seq<char>, way: Seq<Entry>, count: int) -> bool {
    &&& 0 < count <= way.len()
    &&& none_ignored(way.take(count))
    &&& fuzzy::is_match(query, spelled(way.take(count)).flatten())
}

/// Whether a file is to be found: its path matches, or that of a directory that it is
/// in, with no ignored entry on it. Unless ignored entries are asked for, the file and
/// all directories that it is in must not be ignored.
pub open spec fn is_found(query: Seq<char>, include_ignored: bool, way: Seq<Entry>) -> bool {
    &&& exists|count: int| #[trigger] is_touched(query, way, count)
    &&& include_ignored || none_ignored(way)
}

pub open spec fn finds(query: Seq<char>, include_ignored: bool) -> spec_fn(Seq<Entry>) -> bool {
    |way: Seq<Entry>| is_found(query, include_ignored, way)
}

/// A file as it is found. Of its path, so many names are left out at the start.
pub open spec fn as_candidate(tree_id: TreeId, hidden: int, way: Seq<Entry>) -> CandidateModel {
    CandidateModel {
        tree_id,
        relative_path: way.skip(hidden).map_values(|entry: Entry| entry.name@),
        components: spelled(way),
    }
}

pub open spec fn as_candidates(tree_id: TreeId, hidden: int, ways: Seq<Seq<Entry>>) -> Seq<
    CandidateModel,
> {
    ways.map_values(|way: Seq<Entry>| as_candidate(tree_id, hidden, way))
}

/// Whether a walk is at the end of a way.
spec fn stands(place: Place, tree_id: TreeId, hidden: int, above: Seq<Entry>) -> bool {
    &&& 0 <= hidden <= above.len()
    &&& place.candidate() == as_candidate(tree_id, hidden, above)
}

/// Whether what a walk knows of a way holds of it.
spec fn is_known(
    query: Seq<char>,
    include_ignored: bool,
    found: bool,
    above: Seq<Entry>,
) -> bool {
    &&& found <==> exists|count: int| #[trigger] is_touched(query, above, count)
    &&& !found || !include_ignored ==> none_ignored(above)
}

proof fn lemma_spelled(above: Seq<Entry>, entry: Entry)
    ensures
        spelled(above.push(entry)).flatten() == spelled(above).flatten()
            + crate::fs::search_chars(entry),
        spelled(above.push(entry)) == spelled(above).push(crate::fs::search_chars(entry)),
{
    assert(entry.name@ + seq!['/'] =~= entry.name@.push('/'));
    assert(spelled(above.push(entry)) =~= spelled(above).push(crate::fs::search_chars(entry)));
    spelled(above).lemma_flatten_push(crate::fs::search_chars(entry));
}

/// One more entry: what is touched before it, and whether it is.
proof fn lemma_touched_push(query: Seq<char>, above: Seq<Entry>, entry: Entry)
    ensures
        forall|count: int|
            count <= above.len() ==> #[trigger] is_touched(query, above.push(entry), count)
                == is_touched(query, above, count),
        is_touched(query, above.push(entry), above.len() as int + 1) <==> none_ignored(above)
            && !entry.ignored && fuzzy::is_match(
            query,
            spelled(above).flatten() + crate::fs::search_chars(entry),
        ),
        none_ignored(above.push(entry)) <==> none_ignored(above) && !entry.ignored,
{
    let longer = above.push(entry);
    assert forall|count: int| count <= above.len() implies #[trigger] is_touched(
        query,
        longer,
        count,
    ) == is_touched(query, above, count) by {
        if 0 < count {
            assert(longer.take(count) =~= above.take(count));
        }
    }
    assert(longer.take(above.len() as int + 1) =~= longer);
    lemma_spelled(above, entry);
    assert(longer[above.len() as int] == entry);
    assert forall|i: int| 0 <= i < above.len() implies longer[i] == #[trigger] above[i] by {}
    if none_ignored(longer) {
        assert forall|i: int| 0 <= i < above.len() implies !(#[trigger] above[i]).ignored by {
            assert(!longer[i].ignored);
        }
    }
}

/// Where nothing on a way is touched, nor anything among some entries, no file in them
/// is found; nor is one below an ignored entry, where nothing above that is touched.
proof fn lemma_none_found(
    query: Seq<char>,
    include_ignored: bool,
    above: Seq<Entry>,
    entries: Seq<Entry>,
)
    requires
        forall|count: int| !(#[trigger] is_touched(query, above, count)),
        !none_ignored(above) || !path_search::contains_match(
            query,
            spelled(above).flatten(),
            entries,
        ),
    ensures
        ways_in(above, entries).filter(finds(query, include_ignored)) == Seq::<
            Seq<Entry>,
        >::empty(),
    decreases entries,
{
    reveal(Seq::filter);
    let keep = finds(query, include_ignored);
    if entries.len() > 0 {
        let entry = entries.last();
        lemma_none_found(query, include_ignored, above, entries.drop_last());
        lemma_entry_not_found(query, include_ignored, above, entry);
        Seq::filter_distributes_over_add(
            ways_in(above, entries.drop_last()),
            entry_ways(above, entry),
            keep,
        );
    }
}

proof fn lemma_entry_not_found(
    query: Seq<char>,
    include_ignored: bool,
    above: Seq<Entry>,
    entry: Entry,
)
    requires
        forall|count: int| !(#[trigger] is_touched(query, above, count)),
        !none_ignored(above) || path_search::marker(
            query,
            spelled(above).flatten(),
            entry,
        ) is None,
    ensures
        entry_ways(above, entry).filter(finds(query, include_ignored)) == Seq::<
            Seq<Entry>,
        >::empty(),
    decreases entry,
{
    reveal(Seq::filter);
    let keep = finds(query, include_ignored);
    let longer = above.push(entry);
    lemma_touched_push(query, above, entry);
    lemma_spelled(above, entry);
    assert forall|count: int| !(#[trigger] is_touched(query, longer, count)) by {
        if count <= above.len() {
            assert(!is_touched(query, above, count));
        }
    }
    match entry.children {
        Some(children) => {
            lemma_none_found(query, include_ignored, longer, children@);
        },
        None => {
            assert(!keep(longer));
            assert(seq![longer].drop_last() =~= Seq::<Seq<Entry>>::empty());
            assert(seq![longer].last() == longer);
            assert(seq![longer].drop_last().filter(keep) =~= Seq::<Seq<Entry>>::empty());
            assert(seq![longer].filter(keep) =~= Seq::<Seq<Entry>>::empty());
        },
    }
}

/// Unless ignored entries are asked for, nothing below one is found.
proof fn lemma_ignored_not_found(query: Seq<char>, above: Seq<Entry>, entries: Seq<Entry>)
    requires
        !none_ignored(above),
    ensures
        ways_in(above, entries).filter(finds(query, false)) == Seq::<Seq<Entry>>::empty(),
    decreases entries,
{
    reveal(Seq::filter);
    if entries.len() > 0 {
        lemma_ignored_not_found(query, above, entries.drop_last());
        lemma_touched_push(query, above, entries.last());
        lemma_ignored_entry_not_found(query, above, entries.last());
        Seq::filter_distributes_over_add(
            ways_in(above, entries.drop_last()),
            entry_ways(above, entries.last()),
            finds(query, false),
        );
    }
}

proof fn lemma_ignored_entry_not_found(query: Seq<char>, above: Seq<Entry>, entry: Entry)
    requires
        !none_ignored(above.push(entry)),
    ensures
        entry_ways(above, entry).filter(finds(query, false)) == Seq::<Seq<Entry>>::empty(),
    decreases entry,
{
    reveal(Seq::filter);
    let keep = finds(query, false);
    let longer = above.push(entry);
    match entry.children {
        Some(children) => {
            lemma_ignored_not_found(query, longer, children@);
        },
        None => {
            assert(!keep(longer));
            assert(seq![longer].drop_last() =~= Seq::<Seq<Entry>>::empty());
            assert(seq![longer].last() == longer);
            assert(seq![longer].drop_last().filter(keep) =~= Seq::<Seq<Entry>>::empty());
            assert(seq![longer].filter(keep) =~= Seq::<Seq<Entry>>::empty());
        },
    }
}

/// What a walk finds among some entries.
proof fn lemma_walk_finds(
    query: Seq<char>,
    matches: Map<EntryId, MatchMarker>,
    include_ignored: bool,
    found: bool,
    place: Place,
    tree_id: TreeId,
    hidden: int,
    above: Seq<Entry>,
    entries: Seq<Entry>,
)
    requires
        stands(place, tree_id, hidden, above),
        is_known(query, include_ignored, found, above),
        !found ==> path_search::distinct_ids(entries) && path_search::agree_on(
            matches,
            path_search::markers(query, spelled(above).flatten(), entries),
            path_search::ids(entries),
        ),
    ensures
        path_search::candidates_in(matches, include_ignored, found, place, entries)
            == as_candidates(
            tree_id,
            hidden,
            ways_in(above, entries).filter(finds(query, include_ignored)),
        ),
    decreases entries,
{
    reveal(Seq::filter);
    let keep = finds(query, include_ignored);
    if entries.len() > 0 {
        let fewer = entries.drop_last();
        let entry = entries.last();
        if !found {
            path_search::lemma_agree_parts(query, spelled(above).flatten(), matches, entries);
        }
        lemma_walk_finds(
            query,
            matches,
            include_ignored,
            found,
            place,
            tree_id,
            hidden,
            above,
            fewer,
        );
        lemma_walk_finds_in_entry(
            query,
            matches,
            include_ignored,
            found,
            place,
            tree_id,
            hidden,
            above,
            entry,
        );
        let before = ways_in(above, fewer);
        let last = entry_ways(above, entry);
        Seq::filter_distributes_over_add(before, last, keep);
        assert(as_candidates(tree_id, hidden, before.filter(keep) + last.filter(keep))
            =~= as_candidates(tree_id, hidden, before.filter(keep)) + as_candidates(
            tree_id,
            hidden,
            last.filter(keep),
        ));
    } else {
        assert(ways_in(above, entries).filter(keep) =~= Seq::<Seq<Entry>>::empty());
        assert(as_candidates(tree_id, hidden, ways_in(above, entries).filter(keep))
            =~= Seq::empty());
    }
}

proof fn lemma_walk_finds_in_entry(
    query: Seq<char>,
    matches: Map<EntryId, MatchMarker>,
    include_ignored: bool,
    found: bool,
    place: Place,
    tree_id: TreeId,
    hidden: int,
    above: Seq<Entry>,
    entry: Entry,
)
    requires
        stands(place, tree_id, hidden, above),
        is_known(query, include_ignored, found, above),
        !found ==> path_search::entry_distinct_ids(entry) && path_search::agree_on(
            matches,
            path_search::entry_markers(query, spelled(above).flatten(), entry),
            path_search::entry_ids(entry),
        ),
    ensures
        path_search::entry_candidates(matches, include_ignored, found, place, entry)
            == as_candidates(
            tree_id,
            hidden,
            entry_ways(above, entry).filter(finds(query, include_ignored)),
        ),
    decreases entry,
{
    let keep = finds(query, include_ignored);
    let prefix = spelled(above).flatten();
    let longer = above.push(entry);
    let ways = entry_ways(above, entry);
    lemma_touched_push(query, above, entry);
    lemma_spelled(above, entry);
    lemma_below(place, tree_id, hidden, above, entry);
    path_search::lemma_entry_marked(query, prefix, entry);
    assert(path_search::entry_ids(entry).contains(entry.id));
    assert(as_candidates(tree_id, hidden, Seq::empty()) =~= Seq::empty());
    if found {
        let count = choose|count: int| #[trigger] is_touched(query, above, count);
        assert(is_touched(query, longer, count));
    }
    if entry.ignored && !include_ignored {
        lemma_ignored_entry_not_found(query, above, entry);
    } else {
        match path_search::opened(matches, found, entry) {
            Some(all) => {
                assert(is_known(query, include_ignored, all, longer)) by {
                    if !found {
                        if all {
                            assert(is_touched(query, longer, above.len() as int + 1));
                        } else {
                            assert forall|count: int| !(#[trigger] is_touched(
                                query,
                                longer,
                                count,
                            )) by {
                                if count <= above.len() {
                                    assert(!is_touched(query, above, count));
                                }
                            }
                        }
                    }
                }
                match entry.children {
                    Some(children) => {
                        if !all {
                            path_search::lemma_agree_below(query, prefix, matches, entry);
                        }
                        lemma_walk_finds(
                            query,
                            matches,
                            include_ignored,
                            all,
                            place.below(entry),
                            tree_id,
                            hidden,
                            longer,
                            children@,
                        );
                    },
                    None => {
                        reveal(Seq::filter);
                        assert(keep(longer));
                        assert(seq![longer].drop_last() =~= Seq::<Seq<Entry>>::empty());
                        assert(seq![longer].last() == longer);
                        assert(seq![longer].drop_last().filter(keep)
                            =~= Seq::<Seq<Entry>>::empty());
                        assert(seq![longer].filter(keep) =~= seq![longer]);
                        assert(as_candidates(tree_id, hidden, seq![longer])
                            =~= seq![place.below(entry).candidate()]);
                    },
                }
            },
            None => {
                lemma_entry_not_found(query, include_ignored, above, entry);
            },
        }
    }
}

proof fn lemma_below(
    place: Place,
    tree_id: TreeId,
    hidden: int,
    above: Seq<Entry>,
    entry: Entry,
)
    requires
        stands(place, tree_id, hidden, above),
    ensures
        stands(place.below(entry), tree_id, hidden, above.push(entry)),
{
    lemma_spelled(above, entry);
    assert(above.push(entry).skip(hidden) =~= above.skip(hidden).push(entry));
    assert(place.below(entry).names =~= as_candidate(
        tree_id,
        hidden,
        above.push(entry),
    ).relative_path);
    assert(place.below(entry).components =~= spelled(above.push(entry)));
}

/// What is found in each of several trees.
pub open spec fn found_by_tree(
    query: Seq<char>,
    include_ignored: bool,
    tree_ids: Seq<TreeId>,
    roots: Seq<Entry>,
) -> Seq<Seq<CandidateModel>> {
    Seq::new(
        roots.len(),
        |i: int|
            as_candidates(
                tree_ids[i],
                1,
                entry_ways(Seq::empty(), roots[i]).filter(finds(query, include_ignored)),
            ),
    )
}

proof fn lemma_nothing_touched(query: Seq<char>)
    ensures
        forall|count: int| !(#[trigger] is_touched(query, Seq::empty(), count)),
        none_ignored(Seq::empty()),
        spelled(Seq::empty()).flatten() == Seq::<char>::empty(),
{
    assert(spelled(Seq::empty()).flatten() =~= Seq::<char>::empty());
}

proof fn lemma_root_finds(
    query: Seq<char>,
    matches: Map<EntryId, MatchMarker>,
    include_ignored: bool,
    tree_id: TreeId,
    root: Entry,
)
    requires
        root.children is Some,
        path_search::entry_distinct_ids(root),
        path_search::agree_on(
            matches,
            path_search::entry_markers(query, Seq::empty(), root),
            path_search::entry_ids(root),
        ),
    ensures
        path_search::root_candidates(matches, include_ignored, tree_id, root) == as_candidates(
            tree_id,
            1,
            entry_ways(Seq::empty(), root).filter(finds(query, include_ignored)),
        ),
{
    let above = Seq::<Entry>::empty();
    let prefix = Seq::<char>::empty();
    let way = above.push(root);
    let place = path_search::root_place(tree_id, root);
    lemma_nothing_touched(query);
    lemma_touched_push(query, above, root);
    lemma_spelled(above, root);
    assert(place.names =~= as_candidate(tree_id, 1, way).relative_path);
    assert(place.components =~= spelled(way));
    assert(stands(place, tree_id, 1, way));
    path_search::lemma_entry_marked(query, prefix, root);
    assert(path_search::entry_ids(root).contains(root.id));
    assert(as_candidates(tree_id, 1, Seq::empty()) =~= Seq::empty());
    if root.ignored && !include_ignored {
        lemma_ignored_entry_not_found(query, above, root);
    } else {
        match path_search::opened(matches, false, root) {
            Some(all) => {
                if all {
                    assert(is_touched(query, way, 1));
                } else {
                    path_search::lemma_agree_below(query, prefix, matches, root);
                    assert forall|count: int| !(#[trigger] is_touched(query, way, count)) by {
                        if count <= 0 {
                            assert(!is_touched(query, above, count));
                        }
                    }
                }
                lemma_walk_finds(
                    query,
                    matches,
                    include_ignored,
                    all,
                    place,
                    tree_id,
                    1,
                    way,
                    root.children->0@,
                );
            },
            None => {
                lemma_entry_not_found(query, include_ignored, above, root);
            },
        }
    }
}

proof fn lemma_forest_finds(
    query: Seq<char>,
    matches: Map<EntryId, MatchMarker>,
    include_ignored: bool,
    tree_ids: Seq<TreeId>,
    roots: Seq<Entry>,
)
    requires
        path_search::distinct_ids(roots),
        path_search::agree_on(
            matches,
            path_search::markers(query, Seq::empty(), roots),
            path_search::ids(roots),
        ),
        forall|i: int| 0 <= i < roots.len() ==> (#[trigger] roots[i]).children is Some,
    ensures
        path_search::forest_candidates(matches, include_ignored, tree_ids, roots)
            == found_by_tree(query, include_ignored, tree_ids, roots).flatten(),
    decreases roots.len(),
{
    let each = found_by_tree(query, include_ignored, tree_ids, roots);
    if roots.len() > 0 {
        let fewer = roots.drop_last();
        let before = found_by_tree(query, include_ignored, tree_ids, fewer);
        path_search::lemma_agree_parts(query, Seq::empty(), matches, roots);
        assert forall|i: int| 0 <= i < fewer.len() implies (
        #[trigger] fewer[i]).children is Some by {
            assert(roots[i].children is Some);
        }
        lemma_forest_finds(query, matches, include_ignored, tree_ids, fewer);
        assert(roots[roots.len() - 1].children is Some);
        lemma_root_finds(
            query,
            matches,
            include_ignored,
            tree_ids[roots.len() - 1],
            roots.last(),
        );
        assert forall|i: int| 0 <= i < before.len() implies #[trigger] before[i] == each[i] by {
            assert(fewer[i] == roots[i]);
        }
        assert(each =~= before.push(each.last()));
        before.lemma_flatten_push(each.last());
    } else {
        assert(each.flatten() =~= Seq::empty());
    }
}

/// A search in one tree finds just the files that are to be found, each once and in
/// the order in which they stand, whether or not ignored entries are asked for.
pub proof fn law_search_in_one_tree(search: PathSearch)
    requires
        search.wf(),
        search.roots().len() == 1,
        path_search::distinct_ids(search.top()),
    ensures
        search.candidates(search.markers()) == as_candidates(
            search.tree_ids()[0],
            0,
            ways_in(Seq::empty(), search.roots()[0].children->0@).filter(
                finds(search.needle(), search.include_ignored()),
            ),
        ),
{
    let place = Place {
        tree_id: search.tree_ids()[0],
        names: Seq::empty(),
        components: Seq::empty(),
    };
    let above = Seq::<Entry>::empty();
    lemma_nothing_touched(search.needle());
    assert(place.names =~= as_candidate(place.tree_id, 0, above).relative_path);
    assert(place.components =~= spelled(above));
    lemma_walk_finds(
        search.needle(),
        search.markers(),
        search.include_ignored(),
        false,
        place,
        place.tree_id,
        0,
        above,
        search.top(),
    );
}

/// A search in several trees finds tree by tree just the files that are to be found,
/// each once and in the order in which they stand. The root of a tree is searched by,
/// and is no part of a path.
pub proof fn law_search_in_several_trees(search: PathSearch)
    requires
        search.wf(),
        search.roots().len() != 1,
        path_search::distinct_ids(search.roots()),
    ensures
        search.candidates(search.markers()) == found_by_tree(
            search.needle(),
            search.include_ignored(),
            search.tree_ids(),
            search.roots(),
        ).flatten(),
{
    lemma_forest_finds(
        search.needle(),
        search.markers(),
        search.include_ignored(),
        search.tree_ids(),
        search.roots(),
    );
}

/// Whether a way leads from one of some entries to a file.
pub open spec fn leads_to_file(entries: Seq<Entry>, way: Seq<Entry>) -> bool {
    &&& way.len() > 0
    &&& entries.contains(way[0])
    &&& forall|i: int|
        0 <= i < way.len() - 1 ==> (#[trigger] way[i]).children is Some
            && way[i].children->0@.contains(way[i + 1])
    &&& way.last().children is None
}

proof fn lemma_way_is_listed(above: Seq<Entry>, entries: Seq<Entry>, way: Seq<Entry>)
    requires
        leads_to_file(entries, way),
    ensures
        ways_in(above, entries).contains(above + way),
    decreases entries,
{
    let ways = ways_in(above, entries);
    let fewer = entries.drop_last();
    let at = choose|at: int| 0 <= at < entries.len() && entries[at] == way[0];
    let before = ways_in(above, fewer);
    let last = entry_ways(above, entries.last());
    assert(ways == before + last);
    if at < fewer.len() {
        assert(fewer[at] == way[0]);
        lemma_way_is_listed(above, fewer, way);
        let place = choose|place: int| 0 <= place < before.len() && before[place] == above + way;
        assert(ways[place] == above + way);
    } else {
        let entry = entries.last();
        let longer = above.push(entry);
        if way.len() == 1 {
            assert(above + way =~= longer);
            assert(last[0] == longer);
            assert(ways[before.len() as int] == above + way);
        } else {
            let rest = way.skip(1);
            assert(way[0].children is Some);
            assert(rest[0] == way[1]);
            assert forall|i: int| 0 <= i < rest.len() - 1 implies (
            #[trigger] rest[i]).children is Some && rest[i].children->0@.contains(rest[i + 1]) by {
                assert(way[i + 1].children is Some);
                assert(rest[i + 1] == way[i + 2]);
            }
            assert(rest.last() == way.last());
            lemma_way_is_listed(longer, entry.children->0@, rest);
            assert(longer + rest =~= above + way);
            let place = choose|place: int| 0 <= place < last.len() && last[place] == above + way;
            assert(ways[before.len() + place] == above + way);
        }
    }
}

/// A search in one tree misses no file that is to be found.
pub proof fn law_search_in_one_tree_is_complete(search: PathSearch, way: Seq<Entry>)
    requires
        search.wf(),
        search.roots().len() == 1,
        path_search::distinct_ids(search.top()),
        leads_to_file(search.roots()[0].children->0@, way),
        is_found(search.needle(), search.include_ignored(), way),
    ensures
        search.candidates(search.markers()).contains(
            as_candidate(search.tree_ids()[0], 0, way),
        ),
{
    let entries = search.roots()[0].children->0@;
    let ways = ways_in(Seq::empty(), entries);
    let keep = finds(search.needle(), search.include_ignored());
    law_search_in_one_tree(search);
    lemma_way_is_listed(Seq::empty(), entries, way);
    assert(Seq::<Entry>::empty() + way =~= way);
    let at = choose|at: int| 0 <= at < ways.len() && ways[at] == way;
    assert(keep(ways[at]));
    ways.lemma_filter_contains(keep, at);
    let place = choose|place: int|
        0 <= place < ways.filter(keep).len() && ways.filter(keep)[place] == way;
    assert(search.candidates(search.markers())[place] == as_candidate(
        search.tree_ids()[0],
        0,
        way,
    ));
}

/// A search in several trees misses no file of any of them that is to be found.
pub proof fn law_search_in_several_trees_is_complete(
    search: PathSearch,
    index: int,
    way: Seq<Entry>,
)
    requires
        search.wf(),
        search.roots().len() != 1,
        path_search::distinct_ids(search.roots()),
        0 <= index < search.roots().len(),
        leads_to_file(search.roots(), way),
        way[0] == search.roots()[index],
        is_found(search.needle(), search.include_ignored(), way),
    ensures
        search.candidates(search.markers()).contains(
            as_candidate(search.tree_ids()[index], 1, way),
        ),
{
    let root = search.roots()[index];
    let one = seq![root];
    let ways = entry_ways(Seq::empty(), root);
    let keep = finds(search.needle(), search.include_ignored());
    let each = found_by_tree(
        search.needle(),
        search.include_ignored(),
        search.tree_ids(),
        search.roots(),
    );
    law_search_in_several_trees(search);
    assert(one[0] == root);
    lemma_way_is_listed(Seq::empty(), one, way);
    assert(one.drop_last() =~= Seq::<Entry>::empty());
    assert(ways_in(Seq::empty(), one.drop_last()) == Seq::<Seq<Entry>>::empty());
    assert(ways_in(Seq::empty(), one) =~= ways);
    assert(Seq::<Entry>::empty() + way =~= way);
    let at = choose|at: int| 0 <= at < ways.len() && ways[at] == way;
    assert(keep(ways[at]));
    ways.lemma_filter_contains(keep, at);
    let place = choose|place: int|
        0 <= place < ways.filter(keep).len() && ways.filter(keep)[place] == way;
    assert(each[index][place] == as_candidate(search.tree_ids()[index], 1, way));
    sequences::lemma_flattened(each, index, place);
}

/// Whether the items of one sequence are among those of another, in the same order:
/// each has a place of its own there.
pub open spec fn is_part_of<A>(some: Seq<A>, all: Seq<A>) -> bool {
    exists|places: Seq<int>| #[trigger] picks(some, all, places)
}

pub open spec fn picks<A>(some: Seq<A>, all: Seq<A>, places: Seq<int>) -> bool {
    &&& places.len() == some.len()
    &&& forall|i: int|
        0 <= i < places.len() ==> 0 <= #[trigger] places[i] < all.len() && some[i]
            == all[places[i]]
    &&& forall|i: int, j: int|
        0 <= i < j < places.len() ==> #[trigger] places[i] < #[trigger] places[j]
}

/// What is picked by less is part of what is picked by more.
proof fn lemma_filters<A>(
    all: Seq<A>,
    less: spec_fn(A) -> bool,
    more: spec_fn(A) -> bool,
) -> (places: Seq<int>)
    requires
        forall|item: A| #[trigger] less(item) ==> more(item),
    ensures
        picks(all.filter(less), all.filter(more), places),
    decreases all.len(),
{
    reveal(Seq::filter);
    if all.len() == 0 {
        Seq::empty()
    } else {
        let places = lemma_filters(all.drop_last(), less, more);
        let count = all.drop_last().filter(more).len() as int;
        if less(all.last()) {
            places.push(count)
        } else {
            places
        }
    }
}

proof fn lemma_parts_add<A>(first: Seq<A>, wider: Seq<A>, second: Seq<A>, wide: Seq<A>)
    requires
        is_part_of(first, wider),
        is_part_of(second, wide),
    ensures
        is_part_of(first + second, wider + wide),
{
    let some = choose|places: Seq<int>| #[trigger] picks(first, wider, places);
    let other = choose|places: Seq<int>| #[trigger] picks(second, wide, places);
    let places = some + other.map_values(|place: int| wider.len() + place);
    assert(picks(first + second, wider + wide, places));
}

proof fn lemma_tree_parts(
    query: Seq<char>,
    tree_id: TreeId,
    hidden: int,
    ways: Seq<Seq<Entry>>,
)
    ensures
        is_part_of(
            as_candidates(tree_id, hidden, ways.filter(finds(query, false))),
            as_candidates(tree_id, hidden, ways.filter(finds(query, true))),
        ),
{
    let less = finds(query, false);
    let more = finds(query, true);
    assert forall|way: Seq<Entry>| #[trigger] less(way) implies more(way) by {}
    let places = lemma_filters(ways, less, more);
    assert(picks(
        as_candidates(tree_id, hidden, ways.filter(less)),
        as_candidates(tree_id, hidden, ways.filter(more)),
        places,
    ));
}

proof fn lemma_forest_parts(query: Seq<char>, tree_ids: Seq<TreeId>, roots: Seq<Entry>)
    ensures
        is_part_of(
            found_by_tree(query, false, tree_ids, roots).flatten(),
            found_by_tree(query, true, tree_ids, roots).flatten(),
        ),
    decreases roots.len(),
{
    let less = found_by_tree(query, false, tree_ids, roots);
    let more = found_by_tree(query, true, tree_ids, roots);
    if roots.len() == 0 {
        assert(picks(less.flatten(), more.flatten(), Seq::empty()));
    } else {
        let last = roots.len() - 1;
        let fewer = roots.drop_last();
        let fewer_less = found_by_tree(query, false, tree_ids, fewer);
        let fewer_more = found_by_tree(query, true, tree_ids, fewer);
        lemma_forest_parts(query, tree_ids, fewer);
        lemma_tree_parts(query, tree_ids[last], 1, entry_ways(Seq::empty(), roots[last]));
        assert(less =~= fewer_less.push(less[last]));
        assert(more =~= fewer_more.push(more[last]));
        fewer_less.lemma_flatten_push(less[last]);
        fewer_more.lemma_flatten_push(more[last]);
        lemma_parts_add(
            fewer_less.flatten(),
            fewer_more.flatten(),
            less[last],
            more[last],
        );
    }
}

/// A search that is asked for ignored entries too finds all that it finds without them,
/// in the same order.
pub proof fn law_ignored_entries_hide_nothing(without: PathSearch, with_ignored: PathSearch)
    requires
        without.wf(),
        path_search::distinct_ids(without.top()),
        with_ignored.tree_ids() == without.tree_ids(),
        with_ignored.roots() == without.roots(),
        with_ignored.needle() == without.needle(),
        with_ignored.include_ignored(),
        !without.include_ignored(),
    ensures
        is_part_of(
            without.candidates(without.markers()),
            with_ignored.candidates(with_ignored.markers()),
        ),
{
    if without.roots().len() == 1 {
        law_search_in_one_tree(without);
        law_search_in_one_tree(with_ignored);
        lemma_tree_parts(
            without.needle(),
            without.tree_ids()[0],
            0,
            ways_in(Seq::empty(), without.roots()[0].children->0@),
        );
    } else {
        law_search_in_several_trees(without);
        law_search_in_several_trees(with_ignored);
        lemma_forest_parts(without.needle(), without.tree_ids(), without.roots());
    }
}

/// Whether a way leads to a file in one of the trees of a search: through the root of
/// the tree, unless it is the only one.
pub open spec fn is_file_of(search: PathSearch, tree: int, way: Seq<Entry>) -> bool {
    &&& 0 <= tree < search.roots().len()
    &&& if search.roots().len() == 1 {
        leads_to_file(search.roots()[0].children->0@, way)
    } else {
        leads_to_file(search.roots(), way) && way[0] == search.roots()[tree]
    }
}

/// Whether a result is a file, with what a scorer may say of its path.
pub open spec fn is_result<F: Fn(&Vec<Vec<char>>) -> Scoring>(
    search: PathSearch,
    scorer: F,
    tree: int,
    way: Seq<Entry>,
    result: PathSearchResult,
) -> bool {
    let hidden = if search.roots().len() == 1 {
        0int
    } else {
        1
    };
    &&& result@.tree_id == search.tree_ids()[tree]
    &&& result@.relative_path == way.skip(hidden).map_values(|entry: Entry| entry.name@)
    &&& result@.display_path == spelled(way).flatten()
    &&& exists|scoring: Scoring|
        {
            &&& #[trigger] path_search::may_say(scorer, spelled(way), scoring)
            &&& result.score == scoring.score
            &&& result.positions@ == scoring.positions@
        }
}

proof fn lemma_listed_way_leads(above: Seq<Entry>, entries: Seq<Entry>, way: Seq<Entry>)
    requires
        ways_in(above, entries).contains(way),
    ensures
        way.len() > above.len(),
        way.take(above.len() as int) == above,
        leads_to_file(entries, way.skip(above.len() as int)),
    decreases entries,
{
    let ways = ways_in(above, entries);
    let fewer = entries.drop_last();
    let before = ways_in(above, fewer);
    let entry = entries.last();
    let last = entry_ways(above, entry);
    let at = choose|at: int| 0 <= at < ways.len() && ways[at] == way;
    assert(entries.len() > 0);
    assert(ways == before + last);
    if at < before.len() {
        assert(before[at] == way);
        lemma_listed_way_leads(above, fewer, way);
        let rest = way.skip(above.len() as int);
        let i = choose|i: int| 0 <= i < fewer.len() && fewer[i] == rest[0];
        assert(entries[i] == rest[0]);
    } else {
        let longer = above.push(entry);
        assert(last[at - before.len()] == way);
        let rest = way.skip(above.len() as int);
        assert(entries[entries.len() - 1] == entry);
        match entry.children {
            Some(children) => {
                lemma_listed_way_leads(longer, children@, way);
                let inner = way.skip(longer.len() as int);
                assert(way.take(longer.len() as int) == longer);
                assert(way.take(above.len() as int) =~= above) by {
                    assert forall|i: int| 0 <= i < above.len() implies way[i] == above[i] by {
                        assert(way.take(longer.len() as int)[i] == longer[i]);
                    }
                }
                assert(way.take(longer.len() as int)[above.len() as int] == entry);
                assert(rest[0] == entry);
                assert(inner =~= rest.skip(1));
                assert forall|i: int| 0 <= i < rest.len() - 1 implies (
                #[trigger] rest[i]).children is Some && rest[i].children->0@.contains(
                    rest[i + 1],
                ) by {
                    if i == 0 {
                        assert(rest[1] == inner[0]);
                    } else {
                        assert(rest[i] == inner[i - 1]);
                        assert(rest[i + 1] == inner[i]);
                    }
                }
                assert(rest.last() == inner.last());
            },
            None => {
                assert(way == longer);
                assert(way.take(above.len() as int) =~= above);
                assert(rest =~= seq![entry]);
            },
        }
    }
}

proof fn lemma_candidate_is_file(search: PathSearch, at: int) -> (found: (int, Seq<Entry>))
    requires
        search.wf(),
        path_search::distinct_ids(search.top()),
        0 <= at < search.candidates(search.markers()).len(),
    ensures
        is_file_of(search, found.0, found.1),
        is_found(search.needle(), search.include_ignored(), found.1),
        search.candidates(search.markers())[at] == as_candidate(
            search.tree_ids()[found.0],
            if search.roots().len() == 1 {
                0
            } else {
                1
            },
            found.1,
        ),
{
    let keep = finds(search.needle(), search.include_ignored());
    if search.roots().len() == 1 {
        let entries = search.roots()[0].children->0@;
        let ways = ways_in(Seq::empty(), entries);
        law_search_in_one_tree(search);
        let way = ways.filter(keep)[at];
        sequences::lemma_filtered(ways, keep, at);
        lemma_listed_way_leads(Seq::empty(), entries, way);
        assert(way.skip(0) =~= way);
        (0, way)
    } else {
        let each = found_by_tree(
            search.needle(),
            search.include_ignored(),
            search.tree_ids(),
            search.roots(),
        );
        law_search_in_several_trees(search);
        let (tree, place) = sequences::lemma_unflattened(each, at);
        let root = search.roots()[tree];
        let one = seq![root];
        let ways = entry_ways(Seq::empty(), root);
        let way = ways.filter(keep)[place];
        sequences::lemma_filtered(ways, keep, place);
        assert(one.drop_last() =~= Seq::<Entry>::empty());
        assert(ways_in(Seq::empty(), one.drop_last()) == Seq::<Seq<Entry>>::empty());
        assert(ways_in(Seq::empty(), one) =~= ways);
        lemma_listed_way_leads(Seq::empty(), one, way);
        assert(way.skip(0) =~= way);
        assert(way[0] == root);
        assert(search.roots().contains(root));
        (tree, way)
    }
}

proof fn lemma_joined(components: Seq<Seq<char>>)
    ensures
        path_search::joined(components) == components.flatten(),
    decreases components.len(),
{
    if components.len() > 0 {
        lemma_joined(components.drop_last());
        components.drop_last().lemma_flatten_push(components.last());
        assert(components.drop_last().push(components.last()) =~= components);
    } else {
        assert(path_search::joined(components) =~= components.flatten());
    }
}

/// Each result of a search is a file that is to be found, with its path and with what
/// the scorer says of it.
pub proof fn law_each_result_is_a_found_file<F: Fn(&Vec<Vec<char>>) -> Scoring>(
    search: PathSearch,
    scorer: F,
    results: Seq<PathSearchResult>,
    index: int,
)
    requires
        search.wf(),
        path_search::distinct_ids(search.top()),
        path_search::ranked_by(
            scorer,
            search.candidates(search.markers()),
            results,
            search.max_results() as nat,
        ),
        0 <= index < results.len(),
    ensures
        exists|tree: int, way: Seq<Entry>| #[trigger]
            is_file_of(search, tree, way) && is_found(
                search.needle(),
                search.include_ignored(),
                way,
            ) && is_result(search, scorer, tree, way, results[index]),
{
    let candidates = search.candidates(search.markers());
    let limit = search.max_results() as nat;
    let scorings = choose|scorings: Seq<Scoring>| #[trigger]
        path_search::scored_by(scorer, candidates, scorings) && path_search::are_best(
            results,
            candidates,
            scorings,
            limit,
        );
    let scores = path_search::scores_of(scorings);
    let order = choose|order: Seq<usize>|
        {
            &&& #[trigger] path_search::is_ranking(order, scores, limit)
            &&& results.len() == order.len()
            &&& forall|i: int|
                0 <= i < results.len() ==> (#[trigger] results[i])@ == path_search::scored_result(
                    candidates[order[i] as int],
                    scorings[order[i] as int].score,
                    scorings[order[i] as int].positions@,
                )
        };
    let at = order[index] as int;
    assert(0 <= at < scorings.len());
    let (tree, way) = lemma_candidate_is_file(search, at);
    lemma_joined(spelled(way));
    assert(results[index]@ == path_search::scored_result(
        candidates[at],
        scorings[at].score,
        scorings[at].positions@,
    ));
    assert(path_search::may_say(scorer, spelled(way), scorings[at]));
    assert(results[index].score == results[index]@.score);
    assert(results[index].positions@ == results[index]@.positions);
    assert(is_result(search, scorer, tree, way, results[index]));
}

/// Where a search gives fewer results than it may, each file that is to be found is
/// among them.
pub proof fn law_no_found_file_is_left_out<F: Fn(&Vec<Vec<char>>) -> Scoring>(
    search: PathSearch,
    scorer: F,
    results: Seq<PathSearchResult>,
    tree: int,
    way: Seq<Entry>,
)
    requires
        search.wf(),
        path_search::distinct_ids(search.top()),
        path_search::ranked_by(
            scorer,
            search.candidates(search.markers()),
            results,
            search.max_results() as nat,
        ),
        results.len() < search.max_results(),
        is_file_of(search, tree, way),
        is_found(search.needle(), search.include_ignored(), way),
    ensures
        exists|index: int|
            0 <= index < results.len() && is_result(
                search,
                scorer,
                tree,
                way,
                #[trigger] results[index],
            ),
{
    let candidates = search.candidates(search.markers());
    let limit = search.max_results() as nat;
    let scorings = choose|scorings: Seq<Scoring>| #[trigger]
        path_search::scored_by(scorer, candidates, scorings) && path_search::are_best(
            results,
            candidates,
            scorings,
            limit,
        );
    let scores = path_search::scores_of(scorings);
    let order = choose|order: Seq<usize>|
        {
            &&& #[trigger] path_search::is_ranking(order, scores, limit)
            &&& results.len() == order.len()
            &&& forall|i: int|
                0 <= i < results.len() ==> (#[trigger] results[i])@ == path_search::scored_result(
                    candidates[order[i] as int],
                    scorings[order[i] as int].score,
                    scorings[order[i] as int].positions@,
                )
        };
    if search.roots().len() == 1 {
        law_search_in_one_tree_is_complete(search, way);
    } else {
        law_search_in_several_trees_is_complete(search, tree, way);
    }
    let hidden = if search.roots().len() == 1 {
        0int
    } else {
        1
    };
    let candidate = as_candidate(search.tree_ids()[tree], hidden, way);
    let at = choose|at: int| 0 <= at < candidates.len() && candidates[at] == candidate;
    assert(scores.len() == candidates.len());
    assert(order.contains(at as usize));
    let index = choose|index: int| 0 <= index < order.len() && order[index] == at as usize;
    lemma_joined(spelled(way));
    assert(results[index]@ == path_search::scored_result(
        candidates[at],
        scorings[at].score,
        scorings[at].positions@,
    ));
    assert(path_search::may_say(scorer, spelled(way), scorings[at]));
    assert(results[index].score == results[index]@.score);
    assert(results[index].positions@ == results[index]@.positions);
    assert(is_result(search, scorer, tree, way, results[index]));
}

} // verus!
