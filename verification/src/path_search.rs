//! The search for files by their path.

use std::collections::HashMap;
use std::sync::Arc;

use vstd::prelude::*;

use crate::fs::{self, Entry, EntryId};
use crate::fuzzy::{self, Matcher};

verus! {

/// Which tree of a project is meant.
pub type TreeId = usize;

/// How well a path matches. Scores are compared and nothing else.
pub type Score = u64;

/// How an entry is touched by a search: it matches with the directories that it is
/// in, or something in it does.
#[derive(Clone, Copy, Debug, PartialEq, Eq, Structural)]
pub enum MatchMarker {
    ContainsMatch,
    IsMatch,
}

/// How an entry is touched by a search for a query, below directories that are
/// searched by a prefix. Ignored entries are not touched.
pub open spec fn marker(query: Seq<char>, prefix: Seq<char>, entry: Entry) -> Option<MatchMarker>
    decreases entry,
{
    let chars = prefix + fs::search_chars(entry);
    if entry.ignored {
        None
    } else if fuzzy::is_match(query, chars) {
        Some(MatchMarker::IsMatch)
    } else {
        match entry.children {
            Some(children) => if contains_match(query, chars, children@) {
                Some(MatchMarker::ContainsMatch)
            } else {
                None
            },
            None => None,
        }
    }
}

/// Whether one of some entries is touched by a search.
pub open spec fn contains_match(query: Seq<char>, prefix: Seq<char>, entries: Seq<Entry>) -> bool
    decreases entries,
{
    entries.len() > 0 && (contains_match(query, prefix, entries.drop_last()) || marker(
        query,
        prefix,
        entries.last(),
    ) is Some)
}

/// The markers of some entries and of what is in them.
pub open spec fn markers(query: Seq<char>, prefix: Seq<char>, entries: Seq<Entry>) -> Map<
    EntryId,
    MatchMarker,
>
    decreases entries,
{
    if entries.len() == 0 {
        Map::empty()
    } else {
        markers(query, prefix, entries.drop_last()).union_prefer_right(
            entry_markers(query, prefix, entries.last()),
        )
    }
}

/// The markers of an entry and of what is in it. What is in an entry that matches
/// itself has none.
pub open spec fn entry_markers(query: Seq<char>, prefix: Seq<char>, entry: Entry) -> Map<
    EntryId,
    MatchMarker,
>
    decreases entry,
{
    match (marker(query, prefix, entry), entry.children) {
        (Some(MatchMarker::IsMatch), _) => Map::empty().insert(entry.id, MatchMarker::IsMatch),
        (Some(MatchMarker::ContainsMatch), Some(children)) => markers(
            query,
            prefix + fs::search_chars(entry),
            children@,
        ).insert(entry.id, MatchMarker::ContainsMatch),
        _ => Map::empty(),
    }
}

/// How many steps the search for markers takes: one for each entry that it comes
/// to, and one for each directory that it leaves.
pub open spec fn marking_steps(query: Seq<char>, prefix: Seq<char>, entries: Seq<Entry>) -> nat
    decreases entries,
{
    if entries.len() == 0 {
        0
    } else {
        marking_steps(query, prefix, entries.drop_last()) + entry_marking_steps(
            query,
            prefix,
            entries.last(),
        )
    }
}

pub open spec fn entry_marking_steps(query: Seq<char>, prefix: Seq<char>, entry: Entry) -> nat
    decreases entry,
{
    let chars = prefix + fs::search_chars(entry);
    match entry.children {
        Some(children) if !entry.ignored && !fuzzy::is_match(query, chars) => 2 + marking_steps(
            query,
            chars,
            children@,
        ),
        _ => 1,
    }
}

/// Where nothing is touched, there are no markers.
proof fn lemma_no_markers(query: Seq<char>, prefix: Seq<char>, entries: Seq<Entry>)
    requires
        !contains_match(query, prefix, entries),
    ensures
        markers(query, prefix, entries) == Map::<EntryId, MatchMarker>::empty(),
    decreases entries,
{
    if entries.len() > 0 {
        lemma_no_markers(query, prefix, entries.drop_last());
        assert(marker(query, prefix, entries.last()) is None);
        assert(entry_markers(query, prefix, entries.last()) == Map::<EntryId, MatchMarker>::empty());
        assert(markers(query, prefix, entries) =~= Map::empty());
    }
}

/// A file that a search has found, before it is ranked.
pub struct Candidate {
    pub tree_id: TreeId,
    /// The names of the directories that the file is in, and its own.
    pub relative_path: Vec<String>,
    /// What the file is searched by, directory by directory.
    pub components: Vec<Vec<char>>,
}

/// A candidate as a mathematical value.
#[verifier::ext_equal]
pub struct CandidateModel {
    pub tree_id: TreeId,
    pub relative_path: Seq<Seq<char>>,
    pub components: Seq<Seq<char>>,
}

pub open spec fn name_models(names: Seq<String>) -> Seq<Seq<char>> {
    names.map_values(|name: String| name@)
}

pub open spec fn component_models(components: Seq<Vec<char>>) -> Seq<Seq<char>> {
    components.map_values(|component: Vec<char>| component@)
}

impl View for Candidate {
    type V = CandidateModel;

    open spec fn view(&self) -> CandidateModel {
        CandidateModel {
            tree_id: self.tree_id,
            relative_path: name_models(self.relative_path@),
            components: component_models(self.components@),
        }
    }
}

pub open spec fn candidate_models(candidates: Seq<Candidate>) -> Seq<CandidateModel> {
    candidates.map_values(|candidate: Candidate| candidate@)
}

/// Components one after the other.
pub open spec fn joined(components: Seq<Seq<char>>) -> Seq<char>
    decreases components.len(),
{
    if components.len() == 0 {
        Seq::empty()
    } else {
        joined(components.drop_last()) + components.last()
    }
}

/// Whether a directory is looked into, and whether all in it is then found. All is
/// found in a directory where that holds of the directory that it is in, or where
/// it matches itself.
pub open spec fn opened(
    matches: Map<EntryId, MatchMarker>,
    found: bool,
    entry: Entry,
) -> Option<bool> {
    if found {
        Some(true)
    } else if matches.contains_key(entry.id) {
        Some(matches[entry.id] == MatchMarker::IsMatch)
    } else {
        None
    }
}

/// Where a walk through a tree is: the tree, the names of the directories from its
/// root on, and what these are searched by.
#[verifier::ext_equal]
pub struct Place {
    pub tree_id: TreeId,
    pub names: Seq<Seq<char>>,
    pub components: Seq<Seq<char>>,
}

impl Place {
    pub open spec fn below(self, entry: Entry) -> Place {
        Place {
            names: self.names.push(entry.name@),
            components: self.components.push(fs::search_chars(entry)),
            ..self
        }
    }

    pub open spec fn candidate(self) -> CandidateModel {
        CandidateModel {
            tree_id: self.tree_id,
            relative_path: self.names,
            components: self.components,
        }
    }
}

/// The files that are found among some entries and what is in them.
pub open spec fn candidates_in(
    matches: Map<EntryId, MatchMarker>,
    include_ignored: bool,
    found: bool,
    place: Place,
    entries: Seq<Entry>,
) -> Seq<CandidateModel>
    decreases entries,
{
    if entries.len() == 0 {
        Seq::empty()
    } else {
        candidates_in(matches, include_ignored, found, place, entries.drop_last())
            + entry_candidates(matches, include_ignored, found, place, entries.last())
    }
}

/// The files that are found in an entry: the file itself, or what is found in the
/// directory.
pub open spec fn entry_candidates(
    matches: Map<EntryId, MatchMarker>,
    include_ignored: bool,
    found: bool,
    place: Place,
    entry: Entry,
) -> Seq<CandidateModel>
    decreases entry,
{
    if entry.ignored && !include_ignored {
        Seq::empty()
    } else {
        match (entry.children, opened(matches, found, entry)) {
            (Some(children), Some(all)) => candidates_in(
                matches,
                include_ignored,
                all,
                place.below(entry),
                children@,
            ),
            (None, Some(_)) => seq![place.below(entry).candidate()],
            (_, None) => Seq::empty(),
        }
    }
}

/// The place below the root of one of several trees: the root is searched by, but
/// is no part of a path.
pub open spec fn root_place(tree_id: TreeId, root: Entry) -> Place {
    Place { tree_id, names: Seq::empty(), components: seq![fs::search_chars(root)] }
}

/// The files that are found in one of several trees.
pub open spec fn root_candidates(
    matches: Map<EntryId, MatchMarker>,
    include_ignored: bool,
    tree_id: TreeId,
    root: Entry,
) -> Seq<CandidateModel> {
    match (root.children, opened(matches, false, root)) {
        (Some(children), Some(all)) if include_ignored || !root.ignored => candidates_in(
            matches,
            include_ignored,
            all,
            root_place(tree_id, root),
            children@,
        ),
        _ => Seq::empty(),
    }
}

/// The files that are found in several trees.
pub open spec fn forest_candidates(
    matches: Map<EntryId, MatchMarker>,
    include_ignored: bool,
    tree_ids: Seq<TreeId>,
    roots: Seq<Entry>,
) -> Seq<CandidateModel>
    decreases roots.len(),
{
    if roots.len() == 0 {
        Seq::empty()
    } else {
        forest_candidates(matches, include_ignored, tree_ids, roots.drop_last()) + root_candidates(
            matches,
            include_ignored,
            tree_ids[roots.len() - 1],
            roots.last(),
        )
    }
}

/// How many steps the walk through found files takes.
pub open spec fn walking_steps(
    matches: Map<EntryId, MatchMarker>,
    include_ignored: bool,
    found: bool,
    entries: Seq<Entry>,
) -> nat
    decreases entries,
{
    if entries.len() == 0 {
        0
    } else {
        walking_steps(matches, include_ignored, found, entries.drop_last()) + entry_walking_steps(
            matches,
            include_ignored,
            found,
            entries.last(),
        )
    }
}

pub open spec fn entry_walking_steps(
    matches: Map<EntryId, MatchMarker>,
    include_ignored: bool,
    found: bool,
    entry: Entry,
) -> nat
    decreases entry,
{
    match (entry.children, opened(matches, found, entry)) {
        (Some(children), Some(all)) if include_ignored || !entry.ignored => 2 + walking_steps(
            matches,
            include_ignored,
            all,
            children@,
        ),
        _ => 1,
    }
}

/// After how many steps the search for markers asks whether anybody still wants it.
pub const MARKING_INTERVAL: usize = 10000;

/// After how many steps the walk through found files asks whether anybody still
/// wants it.
pub const WALKING_INTERVAL: usize = 1000;

/// `Arc::strong_count`: how many owners a value has, of which the one given is
/// one. How many others there are is not stated: that depends on what else the
/// program holds at the time.
#[verifier::external_body]
fn count_owners(value: &Arc<()>) -> (count: usize)
    ensures
        count >= 1,
{
    Arc::strong_count(value)
}

/// `Arc::clone`: another owner of the same value.
#[verifier::external_body]
fn share(value: &Arc<()>) -> (other: Arc<()>)
    ensures
        other == *value,
{
    value.clone()
}

/// A file that a search has found.
#[derive(Debug, PartialEq)]
pub struct PathSearchResult {
    pub score: Score,
    /// Where the characters of the query are in the display path.
    pub positions: Vec<usize>,
    pub tree_id: TreeId,
    /// The names of the directories that the file is in, and its own.
    pub relative_path: Vec<String>,
    pub display_path: String,
}

/// How far a search has come.
#[derive(Debug, PartialEq)]
pub enum PathSearchStatus {
    Pending,
    Ready(Vec<PathSearchResult>),
}

/// A found file as a mathematical value.
#[verifier::ext_equal]
pub struct ResultModel {
    pub score: Score,
    pub positions: Seq<usize>,
    pub tree_id: TreeId,
    pub relative_path: Seq<Seq<char>>,
    pub display_path: Seq<char>,
}

impl View for PathSearchResult {
    type V = ResultModel;

    open spec fn view(&self) -> ResultModel {
        ResultModel {
            score: self.score,
            positions: self.positions@,
            tree_id: self.tree_id,
            relative_path: name_models(self.relative_path@),
            display_path: self.display_path@,
        }
    }
}

impl PartialOrd for PathSearchResult {
    /// A result with a lower score is the greater one.
    fn partial_cmp(&self, other: &PathSearchResult) -> (result: Option<std::cmp::Ordering>) {
        if other.score < self.score {
            Some(std::cmp::Ordering::Less)
        } else if self.score < other.score {
            Some(std::cmp::Ordering::Greater)
        } else {
            Some(std::cmp::Ordering::Equal)
        }
    }
}

impl vstd::std_specs::cmp::PartialOrdSpecImpl for PathSearchResult {
    open spec fn obeys_partial_cmp_spec() -> bool {
        true
    }

    open spec fn partial_cmp_spec(&self, other: &PathSearchResult) -> Option<std::cmp::Ordering> {
        if other.score < self.score {
            Some(std::cmp::Ordering::Less)
        } else if self.score < other.score {
            Some(std::cmp::Ordering::Greater)
        } else {
            Some(std::cmp::Ordering::Equal)
        }
    }
}

/// Counts a step. At the end of an interval, counting starts anew where there are
/// observers, and ends where there are none.
pub fn count_step(
    steps_since_last_check: &mut usize,
    steps_between_checks: usize,
    has_observers: bool,
) -> (result: Result<(), ()>)
    requires
        *old(steps_since_last_check) < usize::MAX,
    ensures
        result is Ok <==> *old(steps_since_last_check) + 1 != steps_between_checks
            || has_observers,
        *final(steps_since_last_check) == (if *old(steps_since_last_check) + 1
            == steps_between_checks && has_observers {
            0
        } else {
            *old(steps_since_last_check) + 1
        }),
{
    *steps_since_last_check += 1;
    if *steps_since_last_check == steps_between_checks {
        if has_observers {
            *steps_since_last_check = 0;
        } else {
            return Err(());
        }
    }
    Ok(())
}

/// A search for files by their path.
pub struct PathSearch {
    tree_ids: Vec<TreeId>,
    roots: Vec<Entry>,
    needle: Vec<char>,
    max_results: usize,
    include_ignored: bool,
    status: PathSearchStatus,
    observers: Arc<()>,
}

impl PathSearch {
    pub closed spec fn tree_ids(&self) -> Seq<TreeId> {
        self.tree_ids@
    }

    pub closed spec fn roots(&self) -> Seq<Entry> {
        self.roots@
    }

    pub closed spec fn needle(&self) -> Seq<char> {
        self.needle@
    }

    pub closed spec fn max_results(&self) -> usize {
        self.max_results
    }

    pub closed spec fn include_ignored(&self) -> bool {
        self.include_ignored
    }

    pub closed spec fn status(&self) -> PathSearchStatus {
        self.status
    }

    /// Whether there is a tree for each root, and each root is a directory.
    pub open spec fn wf(&self) -> bool {
        &&& self.tree_ids().len() == self.roots().len()
        &&& forall|i: int| 0 <= i < self.roots().len() ==> (#[trigger] self.roots()[i]).children is Some
    }

    /// Where the search starts: in the one root, or with the roots.
    pub open spec fn top(&self) -> Seq<Entry> {
        if self.roots().len() == 1 {
            self.roots()[0].children->0@
        } else {
            self.roots()
        }
    }

    /// The markers of what the search starts with.
    pub open spec fn markers(&self) -> Map<EntryId, MatchMarker> {
        markers(self.needle(), Seq::empty(), self.top())
    }

    /// The files that are found by markers.
    pub open spec fn candidates(&self, matches: Map<EntryId, MatchMarker>) -> Seq<CandidateModel> {
        if self.roots().len() == 1 {
            candidates_in(
                matches,
                self.include_ignored(),
                false,
                Place {
                    tree_id: self.tree_ids()[0],
                    names: Seq::empty(),
                    components: Seq::empty(),
                },
                self.top(),
            )
        } else {
            forest_candidates(matches, self.include_ignored(), self.tree_ids(), self.roots())
        }
    }

    /// A search for a query in trees.
    pub fn new(
        tree_ids: Vec<TreeId>,
        roots: Vec<Entry>,
        needle: Vec<char>,
        max_results: usize,
        include_ignored: bool,
    ) -> (search: PathSearch)
        ensures
            search.tree_ids() == tree_ids@,
            search.roots() == roots@,
            search.needle() == needle@,
            search.max_results() == max_results,
            search.include_ignored() == include_ignored,
            search.status() == PathSearchStatus::Pending,
    {
        PathSearch {
            tree_ids,
            roots,
            needle,
            max_results,
            include_ignored,
            status: PathSearchStatus::Pending,
            observers: Arc::new(()),
        }
    }

    /// How far the search has come.
    pub fn get_status(&self) -> (status: &PathSearchStatus)
        ensures
            *status == self.status(),
    {
        &self.status
    }

    /// Whether something is one more owner of what the search knows its observers by,
    /// as `Arc::clone` makes them.
    pub closed spec fn is_observer(&self, observer: Arc<()>) -> bool {
        call_ensures(share, (&self.observers,), observer)
    }

    /// Something to hold for as long as the search is wanted.
    pub fn observe(&self) -> (observer: Arc<()>)
        ensures
            self.is_observer(observer),
    {
        share(&self.observers)
    }

    /// Whether anybody was found to want the search, or nobody: whether what the search
    /// knows its observers by was found to have another owner than the search itself,
    /// as `Arc::strong_count` counts them. How many that are depends on who holds an
    /// observer at the time.
    pub closed spec fn observed(&self, has_observers: bool) -> bool {
        exists|owners: usize| #[trigger]
            call_ensures(count_owners, (&self.observers,), owners) && has_observers == (owners > 1)
    }

    /// Whether anybody wants the search.
    fn has_observers(&self) -> (has_observers: bool)
        ensures
            self.observed(has_observers),
    {
        let owners: usize = count_owners(&self.observers);
        assert(call_ensures(count_owners, (&self.observers,), owners));
        owners > 1
    }

    /// Counts a step. At the end of an interval, asks whether anybody wants the search,
    /// and ends it where nobody does.
    pub fn check_cancellation(
        &self,
        steps_since_last_check: &mut usize,
        steps_between_checks: usize,
    ) -> (result: Result<(), ()>)
        requires
            *old(steps_since_last_check) < usize::MAX,
        ensures
            if *old(steps_since_last_check) + 1 == steps_between_checks {
                exists|has_observers: bool|
                    {
                        &&& #[trigger] self.observed(has_observers)
                        &&& (result is Ok) == has_observers
                        &&& *final(steps_since_last_check) == (if has_observers {
                            0
                        } else {
                            steps_between_checks
                        })
                    }
            } else {
                result is Ok && *final(steps_since_last_check) == *old(steps_since_last_check) + 1
            },
    {
        if *steps_since_last_check + 1 == steps_between_checks {
            let has_observers: bool = self.has_observers();
            count_step(steps_since_last_check, steps_between_checks, has_observers)
        } else {
            count_step(steps_since_last_check, steps_between_checks, false)
        }
    }

    /// Collects the markers of some entries and of what is in them, and says whether
    /// any of the entries is touched.
    fn mark_entries(
        &self,
        entries: &Vec<Entry>,
        Ghost(prefix): Ghost<Seq<char>>,
        matcher: &mut Matcher,
        steps: &mut usize,
        results: &mut HashMap<EntryId, MatchMarker>,
    ) -> (result: Result<bool, ()>)
        requires
            old(matcher).query() == self.needle(),
            old(matcher).found() == fuzzy::consumed(self.needle(), 0, prefix),
            *old(steps) < MARKING_INTERVAL,
        ensures
            final(matcher).query() == self.needle(),
            match result {
                Ok(found) => {
                    &&& found == contains_match(self.needle(), prefix, entries@)
                    &&& final(results)@ == old(results)@.union_prefer_right(
                        markers(self.needle(), prefix, entries@),
                    )
                    &&& final(matcher).stack() == old(matcher).stack()
                    &&& *final(steps) < MARKING_INTERVAL
                    &&& *final(steps) <= *old(steps) + marking_steps(
                        self.needle(),
                        prefix,
                        entries@,
                    )
                    &&& *final(steps) == *old(steps) + marking_steps(
                        self.needle(),
                        prefix,
                        entries@,
                    ) || self.observed(true)
                },
                Err(_) => *old(steps) + marking_steps(self.needle(), prefix, entries@)
                    >= MARKING_INTERVAL && self.observed(false),
            },
        decreases entries,
    {
        broadcast use vstd::std_specs::hash::group_hash_axioms;

        let ghost query = self.needle();
        let ghost first_steps = *steps;
        let ghost before = results@;
        let mut found_match: bool = false;
        let mut i: usize = 0;
        proof {
            fuzzy::lemma_consumed(query, 0, prefix);
            assert(entries@.take(0) =~= Seq::empty());
            assert(results@ =~= before.union_prefer_right(
                markers(query, prefix, entries@.take(0)),
            ));
        }
        while i < entries.len()
            invariant
                i <= entries@.len(),
                query == self.needle(),
                matcher.query() == query,
                matcher.stack() == old(matcher).stack(),
                matcher.found() == fuzzy::consumed(query, 0, prefix),
                matcher.found() <= query.len(),
                *steps < MARKING_INTERVAL,
                *steps <= first_steps + marking_steps(query, prefix, entries@.take(i as int)),
                *steps == first_steps + marking_steps(query, prefix, entries@.take(i as int))
                    || self.observed(true),
                found_match == contains_match(query, prefix, entries@.take(i as int)),
                results@ == before.union_prefer_right(
                    markers(query, prefix, entries@.take(i as int)),
                ),
                first_steps == *old(steps),
            decreases entries@.len() - i,
        {
            let entry = &entries[i];
            let ghost so_far = results@;
            let ghost chars = prefix + fs::search_chars(*entry);
            proof {
                assert(entries@.take(i + 1).drop_last() =~= entries@.take(i as int));
                assert(entries@.take(i + 1).last() == *entry);
                lemma_marking_steps_grow(query, prefix, entries@, i + 1);
                assert(marking_steps(query, prefix, entries@.take(i + 1)) == marking_steps(
                    query,
                    prefix,
                    entries@.take(i as int),
                ) + entry_marking_steps(query, prefix, *entry));
                assert(entry_marking_steps(query, prefix, *entry) >= 1);
                fuzzy::lemma_consumed_parts(query, 0, prefix, fs::search_chars(*entry));
            }
            if self.check_cancellation(steps, MARKING_INTERVAL).is_err() {
                return Err(());
            }
            if !entry.is_ignored() {
                if matcher.push(&entry.name_chars()) {
                    matcher.pop();
                    results.insert(entry.id(), MatchMarker::IsMatch);
                    found_match = true;
                } else {
                    match &entry.children {
                        Some(children) => {
                            assert(decreases_to!(entries@ => entries@[i as int]));
                            assert(entry_marking_steps(query, prefix, *entry) == 2 + marking_steps(
                                query,
                                chars,
                                children@,
                            ));
                            let found = self.mark_entries(
                                children,
                                Ghost(chars),
                                matcher,
                                steps,
                                results,
                            );
                            let found = match found {
                                Ok(found) => found,
                                Err(error) => {
                                    return Err(error);
                                },
                            };
                            if self.check_cancellation(steps, MARKING_INTERVAL).is_err() {
                                return Err(());
                            }
                            matcher.pop();
                            if found {
                                results.insert(entry.id(), MatchMarker::ContainsMatch);
                                found_match = true;
                            } else {
                                proof {
                                    lemma_no_markers(query, chars, children@);
                                }
                            }
                        },
                        None => {
                            matcher.pop();
                        },
                    }
                }
            }
            proof {
                assert(results@ =~= so_far.union_prefer_right(
                    entry_markers(query, prefix, *entry),
                ));
                assert(results@ =~= before.union_prefer_right(
                    markers(query, prefix, entries@.take(i + 1)),
                ));
            }
            i += 1;
        }
        assert(entries@.take(i as int) =~= entries@);
        Ok(found_match)
    }

    /// The markers of all that the query touches. The search asks at the end of each
    /// interval whether anybody wants it, and fails just where nobody does.
    pub fn find_matches(&self) -> (result: Result<HashMap<EntryId, MatchMarker>, ()>)
        requires
            self.wf(),
        ensures
            result matches Ok(matches) ==> matches@ == self.markers(),
            result is Err ==> marking_steps(self.needle(), Seq::empty(), self.top()) + 1
                >= MARKING_INTERVAL && self.observed(false),
            result is Ok && marking_steps(self.needle(), Seq::empty(), self.top()) + 1
                >= MARKING_INTERVAL ==> self.observed(true),
    {
        broadcast use vstd::std_specs::hash::group_hash_axioms;

        let mut results: HashMap<EntryId, MatchMarker> = HashMap::new();
        let mut matcher = Matcher::new(copy_chars(&self.needle));
        let mut steps: usize = 0;
        let top: &Vec<Entry> = if self.roots.len() == 1 {
            assert(self.roots()[0].children is Some);
            match &self.roots[0].children {
                Some(children) => children,
                None => &self.roots,
            }
        } else {
            &self.roots
        };
        match self.mark_entries(
            top,
            Ghost(Seq::<char>::empty()),
            &mut matcher,
            &mut steps,
            &mut results,
        ) {
            Ok(_) => {},
            Err(error) => {
                return Err(error);
            },
        }
        if self.check_cancellation(&mut steps, MARKING_INTERVAL).is_err() {
            return Err(());
        }
        assert(results@ =~= self.markers());
        Ok(results)
    }
}

/// A copy of characters.
fn copy_chars(chars: &Vec<char>) -> (copy: Vec<char>)
    ensures
        copy@ == chars@,
{
    let mut copy: Vec<char> = Vec::new();
    let mut i: usize = 0;
    while i < chars.len()
        invariant
            i <= chars@.len(),
            copy@ == chars@.take(i as int),
        decreases chars@.len() - i,
    {
        copy.push(chars[i]);
        i += 1;
        assert(copy@ =~= chars@.take(i as int));
    }
    assert(copy@ =~= chars@);
    copy
}

/// Fewer entries take no more steps.
proof fn lemma_marking_steps_grow(
    query: Seq<char>,
    prefix: Seq<char>,
    entries: Seq<Entry>,
    count: int,
)
    requires
        0 <= count <= entries.len(),
    ensures
        marking_steps(query, prefix, entries.take(count)) <= marking_steps(query, prefix, entries),
    decreases entries.len() - count,
{
    if count < entries.len() {
        lemma_marking_steps_grow(query, prefix, entries, count + 1);
        assert(entries.take(count + 1).drop_last() =~= entries.take(count));
    } else {
        assert(entries.take(count) =~= entries);
    }
}

/// Fewer entries take no more steps.
proof fn lemma_walking_steps_grow(
    matches: Map<EntryId, MatchMarker>,
    include_ignored: bool,
    found: bool,
    entries: Seq<Entry>,
    count: int,
)
    requires
        0 <= count <= entries.len(),
    ensures
        walking_steps(matches, include_ignored, found, entries.take(count)) <= walking_steps(
            matches,
            include_ignored,
            found,
            entries,
        ),
    decreases entries.len() - count,
{
    if count < entries.len() {
        lemma_walking_steps_grow(matches, include_ignored, found, entries, count + 1);
        assert(entries.take(count + 1).drop_last() =~= entries.take(count));
    } else {
        assert(entries.take(count) =~= entries);
    }
}

/// A copy of a list of names.
fn copy_names(names: &Vec<String>) -> (copy: Vec<String>)
    ensures
        name_models(copy@) == name_models(names@),
{
    let mut copy: Vec<String> = Vec::new();
    let mut i: usize = 0;
    while i < names.len()
        invariant
            i <= names@.len(),
            name_models(copy@) == name_models(names@).take(i as int),
        decreases names@.len() - i,
    {
        let ghost before = copy@;
        copy.push(names[i].clone());
        proof {
            assert(name_models(copy@) =~= name_models(before).push(names@[i as int]@));
            assert(name_models(copy@) =~= name_models(names@).take(i + 1));
        }
        i += 1;
    }
    assert(name_models(copy@) =~= name_models(names@));
    copy
}

/// A copy of a list of components.
fn copy_components(components: &Vec<Vec<char>>) -> (copy: Vec<Vec<char>>)
    ensures
        component_models(copy@) == component_models(components@),
{
    let mut copy: Vec<Vec<char>> = Vec::new();
    let mut i: usize = 0;
    while i < components.len()
        invariant
            i <= components@.len(),
            component_models(copy@) == component_models(components@).take(i as int),
        decreases components@.len() - i,
    {
        let ghost before = copy@;
        copy.push(copy_chars(&components[i]));
        proof {
            assert(component_models(copy@) =~= component_models(before).push(
                components@[i as int]@,
            ));
            assert(component_models(copy@) =~= component_models(components@).take(i + 1));
        }
        i += 1;
    }
    assert(component_models(copy@) =~= component_models(components@));
    copy
}

/// Components one after the other.
fn join_components(components: &Vec<Vec<char>>) -> (string: String)
    ensures
        string@ == joined(component_models(components@)),
{
    let ghost models = component_models(components@);
    let mut string = String::new();
    let mut i: usize = 0;
    assert(models.take(0) =~= Seq::empty());
    while i < components.len()
        invariant
            i <= components@.len(),
            models == component_models(components@),
            string@ == joined(models.take(i as int)),
        decreases components@.len() - i,
    {
        let ghost before = string@;
        let component = &components[i];
        let mut k: usize = 0;
        assert(component@.take(0) =~= Seq::empty());
        assert(string@ =~= before + component@.take(0));
        while k < component.len()
            invariant
                k <= component@.len(),
                string@ == before + component@.take(k as int),
            decreases component@.len() - k,
        {
            string.push(component[k]);
            k += 1;
            assert(string@ =~= before + component@.take(k as int));
        }
        proof {
            assert(component@.take(k as int) =~= component@);
            assert(models.take(i + 1).drop_last() =~= models.take(i as int));
            assert(models[i as int] == component@);
        }
        i += 1;
    }
    assert(models.take(i as int) =~= models);
    string
}

/// A walk through trees: where it is, and what it has found.
struct Walk {
    tree_id: TreeId,
    names: Vec<String>,
    components: Vec<Vec<char>>,
    steps: usize,
    candidates: Vec<Candidate>,
}

impl Walk {
    spec fn place(&self) -> Place {
        Place {
            tree_id: self.tree_id,
            names: name_models(self.names@),
            components: component_models(self.components@),
        }
    }

    /// Goes down to an entry.
    fn enter(&mut self, entry: &Entry)
        ensures
            final(self).place() == old(self).place().below(*entry),
            final(self).names@.len() == old(self).names@.len() + 1,
            final(self).components@.len() == old(self).components@.len() + 1,
            final(self).names@.drop_last() == old(self).names@,
            final(self).components@.drop_last() == old(self).components@,
            final(self).steps == old(self).steps,
            final(self).candidates == old(self).candidates,
    {
        self.names.push(entry.name.clone());
        self.components.push(entry.name_chars());
        proof {
            assert(self.names@.drop_last() =~= old(self).names@);
            assert(self.components@.drop_last() =~= old(self).components@);
            assert(self.place() =~= old(self).place().below(*entry));
        }
    }

    /// Goes back up from an entry.
    fn leave(&mut self)
        requires
            old(self).names@.len() > 0,
            old(self).components@.len() > 0,
        ensures
            final(self).tree_id == old(self).tree_id,
            final(self).names@ == old(self).names@.drop_last(),
            final(self).components@ == old(self).components@.drop_last(),
            final(self).steps == old(self).steps,
            final(self).candidates == old(self).candidates,
    {
        let _ = self.names.pop();
        let _ = self.components.pop();
    }

    /// Takes the file that the walk is at for a candidate.
    fn take(&mut self)
        ensures
            candidate_models(final(self).candidates@) == candidate_models(
                old(self).candidates@,
            ).push(old(self).place().candidate()),
            final(self).tree_id == old(self).tree_id,
            final(self).names == old(self).names,
            final(self).components == old(self).components,
            final(self).steps == old(self).steps,
    {
        let candidate = Candidate {
            tree_id: self.tree_id,
            relative_path: copy_names(&self.names),
            components: copy_components(&self.components),
        };
        self.candidates.push(candidate);
        assert(candidate@ =~= self.place().candidate());
        assert(candidate_models(self.candidates@) =~= candidate_models(old(self).candidates@).push(
            candidate@,
        ));
    }
}

impl PathSearch {
    /// Walks through some entries and what is in them, and takes the files that are
    /// found.
    fn walk_entries(
        &self,
        matches: &HashMap<EntryId, MatchMarker>,
        found: bool,
        entries: &Vec<Entry>,
        walk: &mut Walk,
    ) -> (result: Result<(), ()>)
        requires
            old(walk).steps < WALKING_INTERVAL,
        ensures
            match result {
                Ok(_) => {
                    &&& candidate_models(final(walk).candidates@) == candidate_models(
                        old(walk).candidates@,
                    ) + candidates_in(
                        matches@,
                        self.include_ignored(),
                        found,
                        old(walk).place(),
                        entries@,
                    )
                    &&& final(walk).tree_id == old(walk).tree_id
                    &&& final(walk).names@ == old(walk).names@
                    &&& final(walk).components@ == old(walk).components@
                    &&& final(walk).steps < WALKING_INTERVAL
                    &&& final(walk).steps <= old(walk).steps + walking_steps(
                        matches@,
                        self.include_ignored(),
                        found,
                        entries@,
                    )
                    &&& final(walk).steps == old(walk).steps + walking_steps(
                        matches@,
                        self.include_ignored(),
                        found,
                        entries@,
                    ) || self.observed(true)
                },
                Err(_) => old(walk).steps + walking_steps(
                    matches@,
                    self.include_ignored(),
                    found,
                    entries@,
                ) >= WALKING_INTERVAL && self.observed(false),
            },
        decreases entries,
    {
        broadcast use vstd::std_specs::hash::group_hash_axioms;

        let ghost all = self.include_ignored();
        let ghost place = walk.place();
        let ghost before = candidate_models(walk.candidates@);
        let ghost first_steps = walk.steps;
        let mut i: usize = 0;
        proof {
            assert(entries@.take(0) =~= Seq::empty());
            assert(before =~= before + candidates_in(
                matches@,
                all,
                found,
                place,
                entries@.take(0),
            ));
        }
        while i < entries.len()
            invariant
                i <= entries@.len(),
                all == self.include_ignored(),
                walk.tree_id == old(walk).tree_id,
                walk.names@ == old(walk).names@,
                walk.components@ == old(walk).components@,
                place == old(walk).place(),
                first_steps == old(walk).steps,
                walk.steps < WALKING_INTERVAL,
                walk.steps <= first_steps + walking_steps(
                    matches@,
                    all,
                    found,
                    entries@.take(i as int),
                ),
                walk.steps == first_steps + walking_steps(
                    matches@,
                    all,
                    found,
                    entries@.take(i as int),
                ) || self.observed(true),
                candidate_models(walk.candidates@) == before + candidates_in(
                    matches@,
                    all,
                    found,
                    place,
                    entries@.take(i as int),
                ),
            decreases entries@.len() - i,
        {
            let entry = &entries[i];
            let ghost so_far = candidate_models(walk.candidates@);
            proof {
                assert(entries@.take(i + 1).drop_last() =~= entries@.take(i as int));
                assert(entries@.take(i + 1).last() == *entry);
                lemma_walking_steps_grow(matches@, all, found, entries@, i + 1);
                assert(walking_steps(matches@, all, found, entries@.take(i + 1)) == walking_steps(
                    matches@,
                    all,
                    found,
                    entries@.take(i as int),
                ) + entry_walking_steps(matches@, all, found, *entry));
                assert(entry_walking_steps(matches@, all, found, *entry) >= 1);
            }
            let mut steps: usize = walk.steps;
            if self.check_cancellation(&mut steps, WALKING_INTERVAL).is_err() {
                return Err(());
            }
            walk.steps = steps;
            if !entry.is_ignored() || self.include_ignored {
                let open: Option<bool> = if found {
                    Some(true)
                } else {
                    match matches.get(&entry.id) {
                        Some(marker) => Some(*marker == MatchMarker::IsMatch),
                        None => None,
                    }
                };
                assert(open == opened(matches@, found, *entry));
                if let Some(all_in_it) = open {
                    walk.enter(entry);
                    match &entry.children {
                        Some(children) => {
                            assert(decreases_to!(entries@ => entries@[i as int]));
                            assert(entry_walking_steps(matches@, all, found, *entry) == 2
                                + walking_steps(matches@, all, all_in_it, children@));
                            match self.walk_entries(matches, all_in_it, children, walk) {
                                Ok(_) => {},
                                Err(error) => {
                                    return Err(error);
                                },
                            }
                            let mut steps: usize = walk.steps;
                            if self.check_cancellation(&mut steps, WALKING_INTERVAL).is_err() {
                                return Err(());
                            }
                            walk.steps = steps;
                        },
                        None => {
                            walk.take();
                        },
                    }
                    walk.leave();
                }
            }
            proof {
                assert(candidate_models(walk.candidates@) =~= so_far + entry_candidates(
                    matches@,
                    all,
                    found,
                    place,
                    *entry,
                ));
                assert(candidate_models(walk.candidates@) =~= before + candidates_in(
                    matches@,
                    all,
                    found,
                    place,
                    entries@.take(i + 1),
                ));
            }
            i += 1;
        }
        assert(entries@.take(i as int) =~= entries@);
        Ok(())
    }

    /// Walks through several trees.
    fn walk_roots(&self, matches: &HashMap<EntryId, MatchMarker>) -> (result: Result<
        Vec<Candidate>,
        (),
    >)
        requires
            self.wf(),
        ensures
            match result {
                Ok(candidates) => {
                    &&& candidate_models(candidates@) == forest_candidates(
                        matches@,
                        self.include_ignored(),
                        self.tree_ids(),
                        self.roots(),
                    )
                    &&& walking_steps(matches@, self.include_ignored(), false, self.roots()) + 1
                        >= WALKING_INTERVAL ==> self.observed(true)
                },
                Err(_) => walking_steps(matches@, self.include_ignored(), false, self.roots()) + 1
                    >= WALKING_INTERVAL && self.observed(false),
            },
    {
        broadcast use vstd::std_specs::hash::group_hash_axioms;

        let ghost all = self.include_ignored();
        let ghost roots = self.roots();
        let mut steps: usize = 0;
        let mut candidates: Vec<Candidate> = Vec::new();
        let mut i: usize = 0;
        proof {
            assert(roots.take(0) =~= Seq::empty());
            assert(candidate_models(candidates@) =~= Seq::empty());
        }
        while i < self.roots.len()
            invariant
                i <= self.roots@.len(),
                self.wf(),
                all == self.include_ignored(),
                roots == self.roots(),
                steps < WALKING_INTERVAL,
                steps <= walking_steps(matches@, all, false, roots.take(i as int)),
                steps == walking_steps(matches@, all, false, roots.take(i as int))
                    || self.observed(true),
                candidate_models(candidates@) == forest_candidates(
                    matches@,
                    all,
                    self.tree_ids(),
                    roots.take(i as int),
                ),
            decreases self.roots@.len() - i,
        {
            let root = &self.roots[i];
            let ghost so_far = candidate_models(candidates@);
            proof {
                assert(roots.take(i + 1).drop_last() =~= roots.take(i as int));
                assert(roots.take(i + 1).last() == *root);
                assert(self.roots()[i as int].children is Some);
                lemma_walking_steps_grow(matches@, all, false, roots, i + 1);
                assert(walking_steps(matches@, all, false, roots.take(i + 1)) == walking_steps(
                    matches@,
                    all,
                    false,
                    roots.take(i as int),
                ) + entry_walking_steps(matches@, all, false, *root));
                assert(entry_walking_steps(matches@, all, false, *root) >= 1);
            }
            if self.check_cancellation(&mut steps, WALKING_INTERVAL).is_err() {
                return Err(());
            }
            if !root.is_ignored() || self.include_ignored {
                if let Some(marker) = matches.get(&root.id) {
                    if let Some(children) = &root.children {
                        let all_in_it: bool = *marker == MatchMarker::IsMatch;
                        assert(entry_walking_steps(matches@, all, false, *root) == 2
                            + walking_steps(matches@, all, all_in_it, children@));
                        let mut walk = Walk {
                            tree_id: self.tree_ids[i],
                            names: Vec::new(),
                            components: Vec::new(),
                            steps,
                            candidates,
                        };
                        walk.components.push(root.name_chars());
                        assert(walk.place() =~= root_place(self.tree_ids@[i as int], *root));
                        match self.walk_entries(matches, all_in_it, children, &mut walk) {
                            Ok(_) => {},
                            Err(error) => {
                                return Err(error);
                            },
                        }
                        steps = walk.steps;
                        candidates = walk.candidates;
                        if self.check_cancellation(&mut steps, WALKING_INTERVAL).is_err() {
                            return Err(());
                        }
                    }
                }
            }
            proof {
                assert(candidate_models(candidates@) =~= so_far + root_candidates(
                    matches@,
                    all,
                    self.tree_ids()[i as int],
                    *root,
                ));
            }
            i += 1;
        }
        assert(roots.take(i as int) =~= roots);
        if self.check_cancellation(&mut steps, WALKING_INTERVAL).is_err() {
            return Err(());
        }
        Ok(candidates)
    }

    /// The files that are found by markers, in the order in which they are come to. The
    /// search asks at the end of each interval whether anybody wants it, and fails just
    /// where nobody does.
    pub fn find_candidates(&self, matches: &HashMap<EntryId, MatchMarker>) -> (result: Result<
        Vec<Candidate>,
        (),
    >)
        requires
            self.wf(),
        ensures
            result matches Ok(candidates) ==> candidate_models(candidates@) == self.candidates(
                matches@,
            ),
            result is Err ==> walking_steps(matches@, self.include_ignored(), false, self.top())
                + 1 >= WALKING_INTERVAL && self.observed(false),
            result is Ok && walking_steps(matches@, self.include_ignored(), false, self.top()) + 1
                >= WALKING_INTERVAL ==> self.observed(true),
    {
        if self.roots.len() == 1 {
            assert(self.roots()[0].children is Some);
            let mut walk = Walk {
                tree_id: self.tree_ids[0],
                names: Vec::new(),
                components: Vec::new(),
                steps: 0,
                candidates: Vec::new(),
            };
            proof {
                assert(walk.place().names =~= Seq::empty());
                assert(walk.place().components =~= Seq::empty());
                assert(candidate_models(walk.candidates@) =~= Seq::empty());
            }
            if let Some(children) = &self.roots[0].children {
                match self.walk_entries(matches, false, children, &mut walk) {
                    Ok(_) => {},
                    Err(error) => {
                        return Err(error);
                    },
                }
            }
            let mut steps: usize = walk.steps;
            if self.check_cancellation(&mut steps, WALKING_INTERVAL).is_err() {
                return Err(());
            }
            assert(candidate_models(walk.candidates@) =~= self.candidates(matches@));
            Ok(walk.candidates)
        } else {
            self.walk_roots(matches)
        }
    }
}

/// Whether a candidate comes before another in the ranking: it has the higher
/// score, or the same and was come to first.
pub open spec fn ranks_before(scores: Seq<Score>, first: int, second: int) -> bool {
    scores[first] > scores[second] || (scores[first] == scores[second] && first < second)
}

/// Whether candidates, by their numbers, are the best ones in order, as many as are
/// wanted or as there are.
pub open spec fn is_ranking(order: Seq<usize>, scores: Seq<Score>, max_results: nat) -> bool {
    &&& order.len() == if scores.len() < max_results {
        scores.len()
    } else {
        max_results
    }
    &&& forall|i: int| 0 <= i < order.len() ==> 0 <= #[trigger] order[i] < scores.len()
    &&& forall|i: int, j: int|
        0 <= i < j < order.len() ==> ranks_before(
            scores,
            #[trigger] order[i] as int,
            #[trigger] order[j] as int,
        )
    &&& forall|other: usize, i: int|
        0 <= other < scores.len() && !order.contains(other) && 0 <= i < order.len()
            ==> #[trigger] ranks_before(scores, order[i] as int, other as int)
    &&& scores.len() <= max_results ==> forall|other: usize|
        0 <= other < scores.len() ==> #[trigger] order.contains(other)
}

/// A candidate with its score, and where the characters of the query are in it.
pub open spec fn scored_result(
    candidate: CandidateModel,
    score: Score,
    positions: Seq<usize>,
) -> ResultModel {
    ResultModel {
        score,
        positions,
        tree_id: candidate.tree_id,
        relative_path: candidate.relative_path,
        display_path: joined(candidate.components),
    }
}

/// What a scorer says of a candidate.
pub struct Scoring {
    pub score: Score,
    pub positions: Vec<usize>,
}

/// The score of each of some scorings.
pub open spec fn scores_of(scorings: Seq<Scoring>) -> Seq<Score> {
    scorings.map_values(|scoring: Scoring| scoring.score)
}

/// Whether results are the best of some candidates, in order.
pub open spec fn are_best(
    results: Seq<PathSearchResult>,
    candidates: Seq<CandidateModel>,
    scorings: Seq<Scoring>,
    max_results: nat,
) -> bool {
    exists|order: Seq<usize>|
        {
            &&& #[trigger] is_ranking(order, scores_of(scorings), max_results)
            &&& results.len() == order.len()
            &&& forall|i: int|
                0 <= i < results.len() ==> (#[trigger] results[i])@ == scored_result(
                    candidates[order[i] as int],
                    scorings[order[i] as int].score,
                    scorings[order[i] as int].positions@,
                )
        }
}

/// A copy of positions.
fn copy_positions(positions: &Vec<usize>) -> (copy: Vec<usize>)
    ensures
        copy@ == positions@,
{
    let mut copy: Vec<usize> = Vec::new();
    let mut i: usize = 0;
    while i < positions.len()
        invariant
            i <= positions@.len(),
            copy@ == positions@.take(i as int),
        decreases positions@.len() - i,
    {
        copy.push(positions[i]);
        i += 1;
        assert(copy@ =~= positions@.take(i as int));
    }
    assert(copy@ =~= positions@);
    copy
}

/// Where one more candidate goes in a ranking of those before it.
#[verifier::spinoff_prover]
#[verifier::rlimit(60)]
proof fn lemma_rank_next(
    before: Seq<usize>,
    after: Seq<usize>,
    scores: Seq<Score>,
    next: usize,
    max_results: nat,
    place: int,
)
    requires
        scores.len() == next + 1,
        max_results > 0,
        is_ranking(before, scores.take(next as int), max_results),
        before.len() == max_results ==> scores[next as int] > scores[before.last() as int],
        0 <= place <= if before.len() < max_results {
            before.len() as int
        } else {
            before.len() - 1
        },
        after == (if before.len() < max_results {
            before
        } else {
            before.drop_last()
        }).insert(place, next),
        forall|i: int|
            0 <= i < place ==> scores[#[trigger] before[i] as int] >= scores[next as int],
        place < before.len() ==> scores[before[place] as int] < scores[next as int],
    ensures
        is_ranking(after, scores, max_results),
{
    let fewer = scores.take(next as int);
    let last = before.len() - 1;
    assert forall|i: int| 0 <= i < before.len() implies 0 <= #[trigger] before[i] < next by {}
    assert(forall|i: int| 0 <= i < next ==> fewer[i] == scores[i]);
    assert(forall|i: int| 0 <= i < place ==> after[i] == before[i]);
    assert(after[place] == next);
    assert(forall|i: int| place < i < after.len() ==> after[i] == before[i - 1]);
    assert forall|i: int| 0 <= i < after.len() implies 0 <= #[trigger] after[i] < scores.len() by {}
    assert forall|i: int, j: int| 0 <= i < j < before.len() implies ranks_before(
        scores,
        #[trigger] before[i] as int,
        #[trigger] before[j] as int,
    ) by {
        assert(ranks_before(fewer, before[i] as int, before[j] as int));
    }
    assert forall|i: int, j: int| 0 <= i < j < after.len() implies ranks_before(
        scores,
        #[trigger] after[i] as int,
        #[trigger] after[j] as int,
    ) by {
        if i == place {
            if place < j - 1 {
                assert(ranks_before(scores, before[place] as int, before[j - 1] as int));
            }
        } else if j != place {
            let from = if i < place {
                i
            } else {
                i - 1
            };
            let to = if j < place {
                j
            } else {
                j - 1
            };
            assert(ranks_before(scores, before[from] as int, before[to] as int));
        }
    }
    assert forall|other: usize| before.contains(other) && (before.len() < max_results || other
        != before.last()) implies #[trigger] after.contains(other) by {
        let at = choose|k: int| 0 <= k < before.len() && before[k] == other;
        if at < place {
            assert(after[at] == other);
        } else {
            assert(after[at + 1] == other);
        }
    }
    assert forall|other: usize, i: int|
        0 <= other < scores.len() && !after.contains(other) && 0 <= i
            < after.len() implies #[trigger] ranks_before(scores, after[i] as int, other as int) by {
        assert(after.contains(next)) by {
            assert(after[place] == next);
        }
        assert(other < next);
        assert(before.len() == max_results);
        let from = if i < place {
            i
        } else {
            i - 1
        };
        if before.contains(other) {
            assert(other == before.last());
            if i != place {
                assert(ranks_before(scores, before[from] as int, before[last] as int));
            }
        } else {
            assert(ranks_before(fewer, before[last] as int, other as int));
            if i != place {
                assert(ranks_before(fewer, before[from] as int, other as int));
            }
        }
    }
    if scores.len() <= max_results {
        assert forall|other: usize| 0 <= other < scores.len() implies #[trigger] after.contains(
            other,
        ) by {
            if other == next {
                assert(after[place] == next);
            } else {
                assert(before.contains(other));
            }
        }
    }
}

/// A candidate that is no better than the last of as many as are wanted changes
/// nothing.
proof fn lemma_rank_skips(
    order: Seq<usize>,
    scores: Seq<Score>,
    next: usize,
    max_results: nat,
)
    requires
        scores.len() == next + 1,
        order.len() == max_results,
        max_results > 0,
        is_ranking(order, scores.take(next as int), max_results),
        scores[next as int] <= scores[order.last() as int],
    ensures
        is_ranking(order, scores, max_results),
{
    let fewer = scores.take(next as int);
    let last = order.len() - 1;
    assert forall|i: int| 0 <= i < order.len() implies 0 <= #[trigger] order[i] < next by {}
    assert forall|i: int, j: int| 0 <= i < j < order.len() implies ranks_before(
        scores,
        #[trigger] order[i] as int,
        #[trigger] order[j] as int,
    ) by {
        assert(ranks_before(fewer, order[i] as int, order[j] as int));
    }
    assert forall|other: usize, i: int|
        0 <= other < scores.len() && !order.contains(other) && 0 <= i
            < order.len() implies #[trigger] ranks_before(scores, order[i] as int, other as int) by {
        if other < next {
            assert(ranks_before(fewer, order[i] as int, other as int));
        } else if i < last {
            assert(ranks_before(fewer, order[i] as int, order[last] as int));
        }
    }
}

/// Puts one more candidate in its place in a ranking of those before it.
fn rank_next(order: &mut Vec<usize>, scorings: &Vec<Scoring>, next: usize, max_results: usize)
    requires
        next < scorings@.len(),
        max_results > 0,
        is_ranking(old(order)@, scores_of(scorings@).take(next as int), max_results as nat),
    ensures
        is_ranking(final(order)@, scores_of(scorings@).take(next + 1), max_results as nat),
{
    let ghost before = order@;
    let ghost scores = scores_of(scorings@).take(next + 1);
    let score: Score = scorings[next].score;
    proof {
        assert(scores.take(next as int) =~= scores_of(scorings@).take(next as int));
        assert forall|i: int| 0 <= i < before.len() implies 0 <= #[trigger] before[i] < next by {}
    }
    if order.len() < max_results || score > scorings[order[order.len() - 1]].score {
        if order.len() == max_results {
            let _ = order.pop();
        }
        let ghost kept = order@;
        let mut place: usize = 0;
        while place < order.len() && scorings[order[place]].score >= score
            invariant
                place <= order@.len(),
                order@ == kept,
                forall|i: int| 0 <= i < kept.len() ==> 0 <= #[trigger] kept[i] < next,
                next < scorings@.len(),
                forall|i: int|
                    0 <= i < place ==> scorings@[#[trigger] kept[i] as int].score >= score,
            decreases order@.len() - place,
        {
            place += 1;
        }
        order.insert(place, next);
        proof {
            assert forall|i: int| 0 <= i < kept.len() implies #[trigger] kept[i] == before[i] by {}
            assert forall|i: int| 0 <= i < place implies scores[#[trigger] before[i] as int]
                >= scores[next as int] by {
                assert(kept[i] == before[i]);
            }
            lemma_rank_next(before, order@, scores, next, max_results as nat, place as int);
        }
    } else {
        proof {
            lemma_rank_skips(before, scores, next, max_results as nat);
        }
    }
}

/// The best of some candidates, in order. Of candidates with the same score, those
/// that were come to first are the better ones.
pub fn rank(candidates: &Vec<Candidate>, scorings: &Vec<Scoring>, max_results: usize) -> (results:
    Vec<PathSearchResult>)
    requires
        candidates@.len() == scorings@.len(),
        max_results > 0 || candidates@.len() == 0,
    ensures
        are_best(
            results@,
            candidate_models(candidates@),
            scorings@,
            max_results as nat,
        ),
{
    let ghost scores = scores_of(scorings@);
    let mut order: Vec<usize> = Vec::new();
    let mut i: usize = 0;
    assert(is_ranking(order@, scores.take(0), max_results as nat));
    while i < scorings.len()
        invariant
            i <= scorings@.len(),
            scores == scores_of(scorings@),
            max_results > 0 || scorings@.len() == 0,
            is_ranking(order@, scores.take(i as int), max_results as nat),
        decreases scorings@.len() - i,
    {
        rank_next(&mut order, scorings, i, max_results);
        i += 1;
    }
    assert(scores.take(i as int) =~= scores);
    let mut results: Vec<PathSearchResult> = Vec::new();
    let mut k: usize = 0;
    while k < order.len()
        invariant
            k <= order@.len(),
            results@.len() == k,
            candidates@.len() == scorings@.len(),
            forall|j: int| 0 <= j < order@.len() ==> 0 <= #[trigger] order@[j] < scorings@.len(),
            forall|j: int|
                0 <= j < k ==> (#[trigger] results@[j])@ == scored_result(
                    candidate_models(candidates@)[order@[j] as int],
                    scorings@[order@[j] as int].score,
                    scorings@[order@[j] as int].positions@,
                ),
        decreases order@.len() - k,
    {
        let candidate = &candidates[order[k]];
        let scoring = &scorings[order[k]];
        let result = PathSearchResult {
            score: scoring.score,
            positions: copy_positions(&scoring.positions),
            tree_id: candidate.tree_id,
            relative_path: copy_names(&candidate.relative_path),
            display_path: join_components(&candidate.components),
        };
        proof {
            assert(candidate_models(candidates@)[order@[k as int] as int] == candidate@);
            assert(result@ =~= scored_result(candidate@, scoring.score, scoring.positions@));
        }
        results.push(result);
        k += 1;
    }
    assert(is_ranking(order@, scores, max_results as nat));
    results
}

/// Whether a scorer may say something of components.
pub open spec fn may_say<F: Fn(&Vec<Vec<char>>) -> Scoring>(
    scorer: F,
    components: Seq<Seq<char>>,
    scoring: Scoring,
) -> bool {
    exists|given: Vec<Vec<char>>|
        component_models(given@) == components && #[trigger] scorer.ensures((&given,), scoring)
}

/// Whether scorings are what a scorer may say of candidates.
pub open spec fn scored_by<F: Fn(&Vec<Vec<char>>) -> Scoring>(
    scorer: F,
    candidates: Seq<CandidateModel>,
    scorings: Seq<Scoring>,
) -> bool {
    &&& scorings.len() == candidates.len()
    &&& forall|i: int|
        0 <= i < scorings.len() ==> may_say(
            scorer,
            candidates[i].components,
            #[trigger] scorings[i],
        )
}

/// Whether results are the best of some candidates, in order, by what a scorer may say
/// of them.
pub open spec fn ranked_by<F: Fn(&Vec<Vec<char>>) -> Scoring>(
    scorer: F,
    candidates: Seq<CandidateModel>,
    results: Seq<PathSearchResult>,
    max_results: nat,
) -> bool {
    exists|scorings: Seq<Scoring>| #[trigger]
        scored_by(scorer, candidates, scorings) && are_best(
            results,
            candidates,
            scorings,
            max_results,
        )
}

/// Whether a scorer says the same of the same components each time.
pub open spec fn says_the_same<F: Fn(&Vec<Vec<char>>) -> Scoring>(scorer: F) -> bool {
    forall|components: Seq<Seq<char>>, first: Scoring, second: Scoring|
        #[trigger] may_say(scorer, components, first) && #[trigger] may_say(
            scorer,
            components,
            second,
        ) ==> first.score == second.score && first.positions@ == second.positions@
}

impl PathSearch {
    /// The best of the files that are found by markers, in order. The search asks at the
    /// end of each interval whether anybody wants it, and fails just where nobody does.
    pub fn rank_matches<F: Fn(&Vec<Vec<char>>) -> Scoring>(
        &self,
        matches: &HashMap<EntryId, MatchMarker>,
        scorer: &F,
    ) -> (result: Result<Vec<PathSearchResult>, ()>)
        requires
            self.wf(),
            self.max_results() > 0 || self.candidates(matches@).len() == 0,
            forall|components: &Vec<Vec<char>>| #[trigger] scorer.requires((components,)),
        ensures
            result matches Ok(results) ==> ranked_by(
                *scorer,
                self.candidates(matches@),
                results@,
                self.max_results() as nat,
            ),
            result is Err ==> walking_steps(matches@, self.include_ignored(), false, self.top())
                + 1 >= WALKING_INTERVAL && self.observed(false),
            result is Ok && walking_steps(matches@, self.include_ignored(), false, self.top()) + 1
                >= WALKING_INTERVAL ==> self.observed(true),
    {
        let candidates = match self.find_candidates(matches) {
            Ok(candidates) => candidates,
            Err(error) => {
                return Err(error);
            },
        };
        let mut scorings: Vec<Scoring> = Vec::new();
        let mut i: usize = 0;
        while i < candidates.len()
            invariant
                i <= candidates@.len(),
                scorings@.len() == i,
                forall|components: &Vec<Vec<char>>| #[trigger] scorer.requires((components,)),
                forall|j: int|
                    0 <= j < i ==> scorer.ensures(
                        (&candidates@[j].components,),
                        #[trigger] scorings@[j],
                    ),
            decreases candidates@.len() - i,
        {
            let scoring = scorer(&candidates[i].components);
            scorings.push(scoring);
            i += 1;
        }
        proof {
            let models = self.candidates(matches@);
            assert forall|j: int| 0 <= j < scorings@.len() implies may_say(
                *scorer,
                models[j].components,
                #[trigger] scorings@[j],
            ) by {
                assert(models[j] == candidates@[j]@);
                assert(scorer.ensures((&candidates@[j].components,), scorings@[j]));
            }
            assert(scored_by(*scorer, models, scorings@));
        }
        Ok(rank(&candidates, &scorings, self.max_results))
    }

    /// Searches. An empty query finds nothing. The search asks at the end of each
    /// interval whether anybody wants it; where nobody does, and only there, it fails
    /// and stays as it is.
    pub fn poll<F: Fn(&Vec<Vec<char>>) -> Scoring>(&mut self, scorer: &F) -> (result: Result<(), ()>)
        requires
            old(self).wf(),
            old(self).needle().len() > 0 ==> old(self).max_results() > 0 || old(self).candidates(
                old(self).markers(),
            ).len() == 0,
            forall|components: &Vec<Vec<char>>| #[trigger] scorer.requires((components,)),
        ensures
            final(self).wf(),
            final(self).tree_ids() == old(self).tree_ids(),
            final(self).roots() == old(self).roots(),
            final(self).needle() == old(self).needle(),
            final(self).max_results() == old(self).max_results(),
            final(self).include_ignored() == old(self).include_ignored(),
            old(self).needle().len() == 0 ==> {
                &&& result is Ok
                &&& final(self).status() matches PathSearchStatus::Ready(results) && results@
                    == Seq::<PathSearchResult>::empty()
            },
            old(self).needle().len() > 0 && result is Ok ==> {
                let candidates = old(self).candidates(old(self).markers());
                &&& final(self).status() matches PathSearchStatus::Ready(results)
                &&& ranked_by(*scorer, candidates, results@, old(self).max_results() as nat)
            },
            result is Err ==> {
                &&& final(self).status() == old(self).status()
                &&& old(self).observed(false)
                &&& marking_steps(old(self).needle(), Seq::empty(), old(self).top()) + 1
                    >= MARKING_INTERVAL || walking_steps(
                    old(self).markers(),
                    old(self).include_ignored(),
                    false,
                    old(self).top(),
                ) + 1 >= WALKING_INTERVAL
            },
            old(self).needle().len() > 0 && result is Ok && (marking_steps(
                old(self).needle(),
                Seq::empty(),
                old(self).top(),
            ) + 1 >= MARKING_INTERVAL || walking_steps(
                old(self).markers(),
                old(self).include_ignored(),
                false,
                old(self).top(),
            ) + 1 >= WALKING_INTERVAL) ==> old(self).observed(true),
    {
        let results = if self.needle.len() == 0 {
            Vec::new()
        } else {
            let matches = match self.find_matches() {
                Ok(matches) => matches,
                Err(error) => {
                    return Err(error);
                },
            };
            match self.rank_matches(&matches, scorer) {
                Ok(results) => results,
                Err(error) => {
                    return Err(error);
                },
            }
        };
        self.status = PathSearchStatus::Ready(results);
        Ok(())
    }
}

/// The numbers of some entries and of what is in them.
pub open spec fn ids(entries: Seq<Entry>) -> Set<EntryId>
    decreases entries,
{
    if entries.len() == 0 {
        Set::empty()
    } else {
        ids(entries.drop_last()).union(entry_ids(entries.last()))
    }
}

pub open spec fn entry_ids(entry: Entry) -> Set<EntryId>
    decreases entry,
{
    match entry.children {
        Some(children) => ids(children@).insert(entry.id),
        None => Set::empty().insert(entry.id),
    }
}

/// Whether no two of some entries and of what is in them have one number.
pub open spec fn distinct_ids(entries: Seq<Entry>) -> bool
    decreases entries,
{
    entries.len() > 0 ==> {
        &&& distinct_ids(entries.drop_last())
        &&& entry_distinct_ids(entries.last())
        &&& ids(entries.drop_last()).disjoint(entry_ids(entries.last()))
    }
}

pub open spec fn entry_distinct_ids(entry: Entry) -> bool
    decreases entry,
{
    entry.children matches Some(children) ==> distinct_ids(children@) && !ids(
        children@,
    ).contains(entry.id)
}

/// The files among some entries and what is in them that are not ignored, nor in a
/// directory that is, and whose path matches a query.
pub open spec fn matching_files(query: Seq<char>, place: Place, entries: Seq<Entry>) -> Seq<
    CandidateModel,
>
    decreases entries,
{
    if entries.len() == 0 {
        Seq::empty()
    } else {
        matching_files(query, place, entries.drop_last()) + entry_matching_files(
            query,
            place,
            entries.last(),
        )
    }
}

pub open spec fn entry_matching_files(query: Seq<char>, place: Place, entry: Entry) -> Seq<
    CandidateModel,
>
    decreases entry,
{
    if entry.ignored {
        Seq::empty()
    } else {
        match entry.children {
            Some(children) => matching_files(query, place.below(entry), children@),
            None => if fuzzy::is_match(query, joined(place.below(entry).components)) {
                seq![place.below(entry).candidate()]
            } else {
                Seq::empty()
            },
        }
    }
}

/// Whether two maps say the same of some entries.
pub open spec fn agree_on(
    some: Map<EntryId, MatchMarker>,
    other: Map<EntryId, MatchMarker>,
    ids: Set<EntryId>,
) -> bool {
    forall|id: EntryId| #[trigger]
        ids.contains(id) ==> some.contains_key(id) == other.contains_key(id) && (
        some.contains_key(id) ==> some[id] == other[id])
}

/// A map that says of some entries what a search does says so of all but the last of
/// them, and of the last.
pub proof fn lemma_agree_parts(
    query: Seq<char>,
    prefix: Seq<char>,
    matches: Map<EntryId, MatchMarker>,
    entries: Seq<Entry>,
)
    requires
        entries.len() > 0,
        distinct_ids(entries),
        agree_on(matches, markers(query, prefix, entries), ids(entries)),
    ensures
        agree_on(
            matches,
            markers(query, prefix, entries.drop_last()),
            ids(entries.drop_last()),
        ),
        agree_on(
            matches,
            entry_markers(query, prefix, entries.last()),
            entry_ids(entries.last()),
        ),
{
    let fewer = entries.drop_last();
    let entry = entries.last();
    let before = markers(query, prefix, fewer);
    let last = entry_markers(query, prefix, entry);
    lemma_markers_ids(query, prefix, fewer);
    lemma_entry_markers_ids(query, prefix, entry);
    assert forall|id: EntryId| #[trigger] ids(fewer).contains(id) implies matches.contains_key(id)
        == before.contains_key(id) && (matches.contains_key(id) ==> matches[id] == before[id]) by {
        assert(ids(entries).contains(id));
        assert(!entry_ids(entry).contains(id));
        assert(!last.dom().contains(id));
    }
    assert forall|id: EntryId| #[trigger]
        entry_ids(entry).contains(id) implies matches.contains_key(id) == last.contains_key(id)
        && (matches.contains_key(id) ==> matches[id] == last[id]) by {
        assert(ids(entries).contains(id));
        assert(!ids(fewer).contains(id));
        assert(!before.dom().contains(id));
    }
}

/// Where a directory contains a match and is none itself, a map that says of it what a
/// search does says so of what is in it.
pub proof fn lemma_agree_below(
    query: Seq<char>,
    prefix: Seq<char>,
    matches: Map<EntryId, MatchMarker>,
    entry: Entry,
)
    requires
        entry.children is Some,
        entry_distinct_ids(entry),
        agree_on(matches, entry_markers(query, prefix, entry), entry_ids(entry)),
        marker(query, prefix, entry) == Some(MatchMarker::ContainsMatch),
    ensures
        agree_on(
            matches,
            markers(query, prefix + fs::search_chars(entry), entry.children->0@),
            ids(entry.children->0@),
        ),
{
    let inner = markers(query, prefix + fs::search_chars(entry), entry.children->0@);
    assert forall|id: EntryId| #[trigger] ids(entry.children->0@).contains(id) implies
        matches.contains_key(id) == inner.contains_key(id) && (matches.contains_key(id)
        ==> matches[id] == inner[id]) by {
        assert(entry_ids(entry).contains(id));
        assert(id != entry.id);
    }
}

proof fn lemma_joined_below(place: Place, entry: Entry)
    ensures
        joined(place.below(entry).components) == joined(place.components) + fs::search_chars(entry),
{
    assert(place.below(entry).components.drop_last() =~= place.components);
}

/// Only numbers of entries are marked.
proof fn lemma_markers_ids(query: Seq<char>, prefix: Seq<char>, entries: Seq<Entry>)
    ensures
        markers(query, prefix, entries).dom().subset_of(ids(entries)),
    decreases entries,
{
    if entries.len() > 0 {
        lemma_markers_ids(query, prefix, entries.drop_last());
        lemma_entry_markers_ids(query, prefix, entries.last());
    }
}

proof fn lemma_entry_markers_ids(query: Seq<char>, prefix: Seq<char>, entry: Entry)
    ensures
        entry_markers(query, prefix, entry).dom().subset_of(entry_ids(entry)),
    decreases entry,
{
    if let Some(children) = entry.children {
        lemma_markers_ids(query, prefix + fs::search_chars(entry), children@);
    }
}

/// An entry is marked by its own marker.
pub proof fn lemma_entry_marked(query: Seq<char>, prefix: Seq<char>, entry: Entry)
    ensures
        match marker(query, prefix, entry) {
            Some(marker) => entry_markers(query, prefix, entry).contains_key(entry.id)
                && entry_markers(query, prefix, entry)[entry.id] == marker,
            None => entry_markers(query, prefix, entry) == Map::<EntryId, MatchMarker>::empty(),
        },
{
    reveal_with_fuel(marker, 2);
    assert(entry_markers(query, prefix, entry) =~= entry_markers(query, prefix, entry));
}

/// Where nothing is touched, no file matches.
proof fn lemma_untouched_matches_nothing(
    query: Seq<char>,
    place: Place,
    entries: Seq<Entry>,
)
    requires
        !contains_match(query, joined(place.components), entries),
    ensures
        matching_files(query, place, entries) == Seq::<CandidateModel>::empty(),
    decreases entries,
{
    if entries.len() > 0 {
        lemma_untouched_matches_nothing(query, place, entries.drop_last());
        let entry = entries.last();
        lemma_joined_below(place, entry);
        assert(marker(query, joined(place.components), entry) is None);
        if !entry.ignored {
            if let Some(children) = entry.children {
                lemma_untouched_matches_nothing(query, place.below(entry), children@);
            }
        }
        assert(entry_matching_files(query, place, entry) == Seq::<CandidateModel>::empty());
        assert(matching_files(query, place, entries) =~= Seq::empty());
    }
}

/// Without ignored entries, the files that are found by the markers of a query are
/// just those whose path matches it, in order.
proof fn lemma_candidates_match(
    query: Seq<char>,
    matches: Map<EntryId, MatchMarker>,
    found: bool,
    place: Place,
    entries: Seq<Entry>,
)
    requires
        found ==> fuzzy::is_match(query, joined(place.components)),
        !found ==> distinct_ids(entries) && agree_on(
            matches,
            markers(query, joined(place.components), entries),
            ids(entries),
        ),
    ensures
        candidates_in(matches, false, found, place, entries) == matching_files(
            query,
            place,
            entries,
        ),
    decreases entries,
{
    if entries.len() > 0 {
        let fewer = entries.drop_last();
        let entry = entries.last();
        let prefix = joined(place.components);
        if !found {
            lemma_agree_parts(query, prefix, matches, entries);
        }
        lemma_candidates_match(query, matches, found, place, fewer);
        lemma_entry_candidates_match(query, matches, found, place, entry);
    }
}

proof fn lemma_entry_candidates_match(
    query: Seq<char>,
    matches: Map<EntryId, MatchMarker>,
    found: bool,
    place: Place,
    entry: Entry,
)
    requires
        found ==> fuzzy::is_match(query, joined(place.components)),
        !found ==> entry_distinct_ids(entry) && agree_on(
            matches,
            entry_markers(query, joined(place.components), entry),
            entry_ids(entry),
        ),
    ensures
        entry_candidates(matches, false, found, place, entry) == entry_matching_files(
            query,
            place,
            entry,
        ),
    decreases entry,
{
    let prefix = joined(place.components);
    let chars = prefix + fs::search_chars(entry);
    lemma_joined_below(place, entry);
    lemma_entry_marked(query, prefix, entry);
    assert(entry_ids(entry).contains(entry.id));
    if found {
        fuzzy::law_match_extends(query, prefix, fs::search_chars(entry));
    }
    if !entry.ignored {
        if let Some(children) = entry.children {
            if let Some(all) = opened(matches, found, entry) {
                if !all {
                    lemma_agree_below(query, prefix, matches, entry);
                }
                lemma_candidates_match(query, matches, all, place.below(entry), children@);
            } else {
                lemma_untouched_matches_nothing(query, place.below(entry), children@);
            }
        }
    }
}

/// A search in one tree that leaves ignored entries out finds just the files whose
/// path matches the query, in the order in which they are come to.
pub proof fn law_search_finds_matching_files(search: PathSearch)
    requires
        search.wf(),
        search.roots().len() == 1,
        !search.include_ignored(),
        distinct_ids(search.top()),
    ensures
        search.candidates(search.markers()) == matching_files(
            search.needle(),
            Place {
                tree_id: search.tree_ids()[0],
                names: Seq::empty(),
                components: Seq::empty(),
            },
            search.top(),
        ),
{
    lemma_candidates_match(
        search.needle(),
        search.markers(),
        false,
        Place { tree_id: search.tree_ids()[0], names: Seq::empty(), components: Seq::empty() },
        search.top(),
    );
}

/// Every file that is found among some entries matches the query.
proof fn lemma_found_files_match(
    query: Seq<char>,
    matches: Map<EntryId, MatchMarker>,
    include_ignored: bool,
    found: bool,
    place: Place,
    entries: Seq<Entry>,
    index: int,
)
    requires
        found ==> fuzzy::is_match(query, joined(place.components)),
        !found ==> distinct_ids(entries) && agree_on(
            matches,
            markers(query, joined(place.components), entries),
            ids(entries),
        ),
        0 <= index < candidates_in(matches, include_ignored, found, place, entries).len(),
    ensures
        fuzzy::is_match(
            query,
            joined(candidates_in(matches, include_ignored, found, place, entries)[index].components),
        ),
    decreases entries,
{
    if entries.len() > 0 {
        let fewer = entries.drop_last();
        let entry = entries.last();
        let prefix = joined(place.components);
        let before = candidates_in(matches, include_ignored, found, place, fewer);
        if !found {
            lemma_agree_parts(query, prefix, matches, entries);
        }
        if index < before.len() {
            lemma_found_files_match(query, matches, include_ignored, found, place, fewer, index);
        } else {
            lemma_entry_found_files_match(
                query,
                matches,
                include_ignored,
                found,
                place,
                entry,
                index - before.len(),
            );
        }
    }
}

proof fn lemma_entry_found_files_match(
    query: Seq<char>,
    matches: Map<EntryId, MatchMarker>,
    include_ignored: bool,
    found: bool,
    place: Place,
    entry: Entry,
    index: int,
)
    requires
        found ==> fuzzy::is_match(query, joined(place.components)),
        !found ==> entry_distinct_ids(entry) && agree_on(
            matches,
            entry_markers(query, joined(place.components), entry),
            entry_ids(entry),
        ),
        0 <= index < entry_candidates(matches, include_ignored, found, place, entry).len(),
    ensures
        fuzzy::is_match(
            query,
            joined(
                entry_candidates(matches, include_ignored, found, place, entry)[index].components,
            ),
        ),
    decreases entry,
{
    let prefix = joined(place.components);
    let chars = prefix + fs::search_chars(entry);
    lemma_joined_below(place, entry);
    lemma_entry_marked(query, prefix, entry);
    assert(entry_ids(entry).contains(entry.id));
    if found {
        fuzzy::law_match_extends(query, prefix, fs::search_chars(entry));
    }
    let all = opened(matches, found, entry)->0;
    if let Some(children) = entry.children {
        if !all {
            lemma_agree_below(query, prefix, matches, entry);
        }
        lemma_found_files_match(
            query,
            matches,
            include_ignored,
            all,
            place.below(entry),
            children@,
            index,
        );
    }
}

/// The files in several trees that are not ignored, nor in a directory that is, and
/// whose path, from the name of the root on, matches a query.
pub open spec fn forest_matching_files(
    query: Seq<char>,
    tree_ids: Seq<TreeId>,
    roots: Seq<Entry>,
) -> Seq<CandidateModel>
    decreases roots.len(),
{
    if roots.len() == 0 {
        Seq::empty()
    } else {
        let root = roots.last();
        forest_matching_files(query, tree_ids, roots.drop_last()) + if root.ignored {
            Seq::empty()
        } else {
            matching_files(
                query,
                root_place(tree_ids[roots.len() - 1], root),
                root.children->0@,
            )
        }
    }
}

proof fn lemma_forest_candidates_match(
    query: Seq<char>,
    matches: Map<EntryId, MatchMarker>,
    tree_ids: Seq<TreeId>,
    roots: Seq<Entry>,
)
    requires
        distinct_ids(roots),
        agree_on(matches, markers(query, Seq::empty(), roots), ids(roots)),
        forall|i: int| 0 <= i < roots.len() ==> (#[trigger] roots[i]).children is Some,
    ensures
        forest_candidates(matches, false, tree_ids, roots) == forest_matching_files(
            query,
            tree_ids,
            roots,
        ),
    decreases roots.len(),
{
    if roots.len() > 0 {
        let fewer = roots.drop_last();
        let root = roots.last();
        let empty = Seq::<char>::empty();
        let tree_id = tree_ids[roots.len() - 1];
        let chars = fs::search_chars(root);
        assert(empty + chars =~= chars);
        lemma_agree_parts(query, empty, matches, roots);
        assert forall|i: int| 0 <= i < fewer.len() implies (#[trigger] fewer[i]).children is Some by {
            assert(roots[i].children is Some);
        }
        lemma_forest_candidates_match(query, matches, tree_ids, fewer);
        assert(roots[roots.len() - 1].children is Some);
        lemma_root_candidates_match(query, matches, tree_id, root);
    }
}

proof fn lemma_root_candidates_match(
    query: Seq<char>,
    matches: Map<EntryId, MatchMarker>,
    tree_id: TreeId,
    root: Entry,
)
    requires
        root.children is Some,
        entry_distinct_ids(root),
        agree_on(matches, entry_markers(query, Seq::empty(), root), entry_ids(root)),
    ensures
        root_candidates(matches, false, tree_id, root) == (if root.ignored {
            Seq::empty()
        } else {
            matching_files(query, root_place(tree_id, root), root.children->0@)
        }),
{
    let empty = Seq::<char>::empty();
    let children = root.children->0;
    let chars = empty + fs::search_chars(root);
    let place = root_place(tree_id, root);
    assert(place.components.drop_last() =~= Seq::<Seq<char>>::empty());
    assert(joined(place.components.drop_last()) == empty);
    assert(joined(place.components) =~= chars);
    lemma_entry_marked(query, empty, root);
    assert(entry_ids(root).contains(root.id));
    if !root.ignored {
        if let Some(all) = opened(matches, false, root) {
            if !all {
                lemma_agree_below(query, empty, matches, root);
            }
            lemma_candidates_match(query, matches, all, place, children@);
        } else {
            lemma_untouched_matches_nothing(query, place, children@);
        }
    }
}

/// A search in several trees that leaves ignored entries out finds just the files
/// whose path, from the name of the root on, matches the query, in the order in
/// which they are come to.
pub proof fn law_search_finds_matching_files_in_trees(search: PathSearch)
    requires
        search.wf(),
        search.roots().len() != 1,
        !search.include_ignored(),
        distinct_ids(search.roots()),
    ensures
        search.candidates(search.markers()) == forest_matching_files(
            search.needle(),
            search.tree_ids(),
            search.roots(),
        ),
{
    lemma_forest_candidates_match(
        search.needle(),
        search.markers(),
        search.tree_ids(),
        search.roots(),
    );
}

/// Every file that is found in one of several trees matches the query.
proof fn lemma_root_found_files_match(
    query: Seq<char>,
    matches: Map<EntryId, MatchMarker>,
    include_ignored: bool,
    tree_id: TreeId,
    root: Entry,
    index: int,
)
    requires
        root.children is Some,
        entry_distinct_ids(root),
        agree_on(matches, entry_markers(query, Seq::empty(), root), entry_ids(root)),
        0 <= index < root_candidates(matches, include_ignored, tree_id, root).len(),
    ensures
        fuzzy::is_match(
            query,
            joined(root_candidates(matches, include_ignored, tree_id, root)[index].components),
        ),
{
    let empty = Seq::<char>::empty();
    let place = root_place(tree_id, root);
    assert(place.components.drop_last() =~= Seq::<Seq<char>>::empty());
    assert(joined(place.components.drop_last()) == empty);
    assert(joined(place.components) =~= empty + fs::search_chars(root));
    lemma_entry_marked(query, empty, root);
    assert(entry_ids(root).contains(root.id));
    let all = opened(matches, false, root)->0;
    if !all {
        lemma_agree_below(query, empty, matches, root);
    }
    lemma_found_files_match(
        query,
        matches,
        include_ignored,
        all,
        place,
        root.children->0@,
        index,
    );
}

/// Every file that is found in several trees matches the query.
proof fn lemma_forest_found_files_match(
    query: Seq<char>,
    matches: Map<EntryId, MatchMarker>,
    include_ignored: bool,
    tree_ids: Seq<TreeId>,
    roots: Seq<Entry>,
    index: int,
)
    requires
        distinct_ids(roots),
        agree_on(matches, markers(query, Seq::empty(), roots), ids(roots)),
        forall|i: int| 0 <= i < roots.len() ==> (#[trigger] roots[i]).children is Some,
        0 <= index < forest_candidates(matches, include_ignored, tree_ids, roots).len(),
    ensures
        fuzzy::is_match(
            query,
            joined(forest_candidates(matches, include_ignored, tree_ids, roots)[index].components),
        ),
    decreases roots.len(),
{
    if roots.len() > 0 {
        let fewer = roots.drop_last();
        let before = forest_candidates(matches, include_ignored, tree_ids, fewer);
        lemma_agree_parts(query, Seq::empty(), matches, roots);
        assert(roots[roots.len() - 1].children is Some);
        assert forall|i: int| 0 <= i < fewer.len() implies (
        #[trigger] fewer[i]).children is Some by {
            assert(roots[i].children is Some);
        }
        if index < before.len() {
            lemma_forest_found_files_match(
                query,
                matches,
                include_ignored,
                tree_ids,
                fewer,
                index,
            );
        } else {
            lemma_root_found_files_match(
                query,
                matches,
                include_ignored,
                tree_ids[roots.len() - 1],
                roots.last(),
                index - before.len(),
            );
        }
    }
}

/// Every file that a search finds matches the query, whether or not ignored files are
/// searched.
pub proof fn law_found_files_match(search: PathSearch, index: int)
    requires
        search.wf(),
        distinct_ids(search.top()),
        0 <= index < search.candidates(search.markers()).len(),
    ensures
        fuzzy::is_match(
            search.needle(),
            joined(search.candidates(search.markers())[index].components),
        ),
{
    if search.roots().len() == 1 {
        let place = Place {
            tree_id: search.tree_ids()[0],
            names: Seq::empty(),
            components: Seq::empty(),
        };
        lemma_found_files_match(
            search.needle(),
            search.markers(),
            search.include_ignored(),
            false,
            place,
            search.top(),
            index,
        );
    } else {
        lemma_forest_found_files_match(
            search.needle(),
            search.markers(),
            search.include_ignored(),
            search.tree_ids(),
            search.roots(),
            index,
        );
    }
}

/// How many entries there are, with all that is in directories.
pub open spec fn count(entries: Seq<Entry>) -> nat
    decreases entries,
{
    if entries.len() == 0 {
        0
    } else {
        count(entries.drop_last()) + match entries.last().children {
            Some(children) => 1 + count(children@),
            None => 1,
        }
    }
}

/// A search takes no more than two steps for each entry: one to come to it, and one to
/// leave it where it is a directory.
pub proof fn law_search_takes_few_steps(
    query: Seq<char>,
    prefix: Seq<char>,
    matches: Map<EntryId, MatchMarker>,
    include_ignored: bool,
    found: bool,
    entries: Seq<Entry>,
)
    ensures
        marking_steps(query, prefix, entries) <= 2 * count(entries),
        walking_steps(matches, include_ignored, found, entries) <= 2 * count(entries),
    decreases entries,
{
    if entries.len() > 0 {
        let last = entries.last();
        law_search_takes_few_steps(
            query,
            prefix,
            matches,
            include_ignored,
            found,
            entries.drop_last(),
        );
        if let Some(children) = last.children {
            assert(decreases_to!(entries => entries[entries.len() - 1]));
            let all = opened(matches, found, last);
            law_search_takes_few_steps(
                query,
                prefix + fs::search_chars(last),
                matches,
                include_ignored,
                all == Some(true),
                children@,
            );
            assert(entry_marking_steps(query, prefix, last) <= 2 + 2 * count(children@));
            assert(entry_walking_steps(matches, include_ignored, found, last) <= 2 + 2 * count(
                children@,
            ));
        } else {
            assert(entry_marking_steps(query, prefix, last) <= 2);
            assert(entry_walking_steps(matches, include_ignored, found, last) <= 2);
        }
    }
}

/// The results of a search come with the best first, and are as many as are wanted or
/// as there are files; what is left out is no better than what is not.
pub proof fn law_best_results_come_first(
    results: Seq<PathSearchResult>,
    candidates: Seq<CandidateModel>,
    scorings: Seq<Scoring>,
    max_results: nat,
)
    requires
        are_best(results, candidates, scorings, max_results),
        scorings.len() == candidates.len(),
        scorings.len() <= usize::MAX,
    ensures
        results.len() == if candidates.len() < max_results {
            candidates.len()
        } else {
            max_results
        },
        forall|i: int, j: int|
            0 <= i < j < results.len() ==> (#[trigger] results[i]).score >= (
            #[trigger] results[j]).score,
        forall|k: int|
            #![trigger scorings[k]]
            0 <= k < candidates.len() ==> (exists|i: int|
                0 <= i < results.len() && (#[trigger] results[i])@ == scored_result(
                    candidates[k],
                    scorings[k].score,
                    scorings[k].positions@,
                )) || (forall|i: int|
                0 <= i < results.len() ==> (#[trigger] results[i]).score >= scorings[k].score),
{
    let scores = scores_of(scorings);
    let order = choose|order: Seq<usize>|
        {
            &&& #[trigger] is_ranking(order, scores, max_results)
            &&& results.len() == order.len()
            &&& forall|i: int|
                0 <= i < results.len() ==> (#[trigger] results[i])@ == scored_result(
                    candidates[order[i] as int],
                    scorings[order[i] as int].score,
                    scorings[order[i] as int].positions@,
                )
        };
    assert forall|i: int| 0 <= i < results.len() implies (#[trigger] results[i]).score
        == scores[order[i] as int] by {
        assert(results[i]@.score == scorings[order[i] as int].score);
    }
    assert forall|i: int, j: int| 0 <= i < j < results.len() implies (#[trigger] results[i]).score
        >= (#[trigger] results[j]).score by {
        assert(ranks_before(scores, order[i] as int, order[j] as int));
    }
    assert forall|k: int|
        #![trigger scorings[k]]
        0 <= k < candidates.len() implies (exists|i: int|
        0 <= i < results.len() && (#[trigger] results[i])@ == scored_result(
            candidates[k],
            scorings[k].score,
            scorings[k].positions@,
        )) || (forall|i: int|
        0 <= i < results.len() ==> (#[trigger] results[i]).score >= scorings[k].score) by {
        let other = k as usize;
        if order.contains(other) {
            let i = choose|i: int| 0 <= i < order.len() && order[i] == other;
            assert(results[i]@ == scored_result(
                candidates[k],
                scorings[k].score,
                scorings[k].positions@,
            ));
        } else {
            assert forall|i: int| 0 <= i < results.len() implies (#[trigger] results[i]).score
                >= scorings[k].score by {
                assert(ranks_before(scores, order[i] as int, other as int));
                assert(scores[k] == scorings[k].score);
            }
        }
    }
}

/// Of two rankings of the same candidates, the one of fewer is how the other begins.
proof fn lemma_rankings_agree(
    few: Seq<usize>,
    many: Seq<usize>,
    scores: Seq<Score>,
    fewer: nat,
    more: nat,
    index: int,
)
    requires
        is_ranking(few, scores, fewer),
        is_ranking(many, scores, more),
        fewer <= more,
        0 <= index < few.len(),
    ensures
        few[index] == many[index],
    decreases index,
{
    assert forall|i: int| 0 <= i < index implies #[trigger] few[i] == many[i] by {
        lemma_rankings_agree(few, many, scores, fewer, more, i);
    }
    let one = few[index];
    let other = many[index];
    if one != other {
        assert(ranks_before(scores, other as int, one as int)) by {
            if many.contains(one) {
                let at = choose|at: int| 0 <= at < many.len() && many[at] == one;
                if at < index {
                    assert(few[at] == many[at]);
                    assert(ranks_before(scores, few[at] as int, few[index] as int));
                } else {
                    assert(ranks_before(scores, many[index] as int, many[at] as int));
                }
            }
        }
        assert(ranks_before(scores, one as int, other as int)) by {
            if few.contains(other) {
                let at = choose|at: int| 0 <= at < few.len() && few[at] == other;
                if at < index {
                    assert(few[at] == many[at]);
                    assert(ranks_before(scores, many[at] as int, many[index] as int));
                } else {
                    assert(ranks_before(scores, few[index] as int, few[at] as int));
                }
            }
        }
    }
}

/// The best of some candidates, under a smaller limit, are how the best of them under a
/// greater limit begin.
pub proof fn law_best_under_a_smaller_limit_come_first(
    few: Seq<PathSearchResult>,
    many: Seq<PathSearchResult>,
    candidates: Seq<CandidateModel>,
    few_scorings: Seq<Scoring>,
    many_scorings: Seq<Scoring>,
    fewer: nat,
    more: nat,
)
    requires
        are_best(few, candidates, few_scorings, fewer),
        are_best(many, candidates, many_scorings, more),
        fewer <= more,
        few_scorings.len() == many_scorings.len(),
        forall|k: int|
            #![trigger few_scorings[k]]
            0 <= k < few_scorings.len() ==> few_scorings[k].score == many_scorings[k].score
                && few_scorings[k].positions@ == many_scorings[k].positions@,
    ensures
        few.len() == if many.len() < fewer {
            many.len()
        } else {
            fewer
        },
        forall|i: int| 0 <= i < few.len() ==> (#[trigger] few[i])@ == many[i]@,
        forall|i: int, j: int|
            0 <= i < few.len() && few.len() <= j < many.len() ==> (#[trigger] few[i]).score >= (
            #[trigger] many[j]).score,
{
    let scores = scores_of(few_scorings);
    assert(scores_of(many_scorings) =~= scores) by {
        assert forall|k: int| 0 <= k < scores.len() implies scores_of(many_scorings)[k]
            == #[trigger] scores[k] by {
            assert(few_scorings[k].score == many_scorings[k].score);
        }
    }
    let few_order = choose|order: Seq<usize>|
        {
            &&& #[trigger] is_ranking(order, scores, fewer)
            &&& few.len() == order.len()
            &&& forall|i: int|
                0 <= i < few.len() ==> (#[trigger] few[i])@ == scored_result(
                    candidates[order[i] as int],
                    few_scorings[order[i] as int].score,
                    few_scorings[order[i] as int].positions@,
                )
        };
    let many_order = choose|order: Seq<usize>|
        {
            &&& #[trigger] is_ranking(order, scores, more)
            &&& many.len() == order.len()
            &&& forall|i: int|
                0 <= i < many.len() ==> (#[trigger] many[i])@ == scored_result(
                    candidates[order[i] as int],
                    many_scorings[order[i] as int].score,
                    many_scorings[order[i] as int].positions@,
                )
        };
    assert forall|i: int| 0 <= i < few.len() implies (#[trigger] few[i])@ == many[i]@ by {
        lemma_rankings_agree(few_order, many_order, scores, fewer, more, i);
        assert(few_scorings[few_order[i] as int].score == many_scorings[few_order[i] as int].score);
    }
    assert forall|i: int, j: int|
        0 <= i < few.len() && few.len() <= j < many.len() implies (#[trigger] few[i]).score >= (
    #[trigger] many[j]).score by {
        assert(few[i]@ == many[i]@);
        assert(ranks_before(scores, many_order[i] as int, many_order[j] as int));
        assert(many[i]@.score == many_scorings[many_order[i] as int].score);
        assert(many[j]@.score == many_scorings[many_order[j] as int].score);
        assert(scores[many_order[i] as int] == scores_of(many_scorings)[many_order[i] as int]);
        assert(scores[many_order[j] as int] == scores_of(many_scorings)[many_order[j] as int]);
    }
}

/// Two searches in the same trees, ranked by a scorer that says the same each time: the
/// one with the smaller limit gives as many results as it may or as there are, and they
/// are how the results of the other begin, with the best first. What it leaves out is no
/// better than what it gives.
pub proof fn law_smaller_limit_gives_the_first_results<F: Fn(&Vec<Vec<char>>) -> Scoring>(
    few_search: PathSearch,
    many_search: PathSearch,
    matches: Map<EntryId, MatchMarker>,
    scorer: F,
    few: Seq<PathSearchResult>,
    many: Seq<PathSearchResult>,
)
    requires
        says_the_same(scorer),
        few_search.tree_ids() == many_search.tree_ids(),
        few_search.roots() == many_search.roots(),
        few_search.include_ignored() == many_search.include_ignored(),
        few_search.max_results() <= many_search.max_results(),
        ranked_by(
            scorer,
            few_search.candidates(matches),
            few,
            few_search.max_results() as nat,
        ),
        ranked_by(
            scorer,
            many_search.candidates(matches),
            many,
            many_search.max_results() as nat,
        ),
    ensures
        few.len() == if many.len() < few_search.max_results() {
            many.len()
        } else {
            few_search.max_results() as nat
        },
        forall|i: int| 0 <= i < few.len() ==> (#[trigger] few[i])@ == many[i]@,
        forall|i: int, j: int|
            0 <= i < j < few.len() ==> (#[trigger] few[i]).score >= (#[trigger] few[j]).score,
        forall|i: int, j: int|
            0 <= i < few.len() && few.len() <= j < many.len() ==> (#[trigger] few[i]).score >= (
            #[trigger] many[j]).score,
{
    let candidates = few_search.candidates(matches);
    let fewer = few_search.max_results() as nat;
    let more = many_search.max_results() as nat;
    let few_scorings = choose|scorings: Seq<Scoring>| #[trigger]
        scored_by(scorer, candidates, scorings) && are_best(few, candidates, scorings, fewer);
    let many_scorings = choose|scorings: Seq<Scoring>| #[trigger]
        scored_by(scorer, candidates, scorings) && are_best(many, candidates, scorings, more);
    assert forall|k: int|
        #![trigger few_scorings[k]]
        0 <= k < few_scorings.len() implies few_scorings[k].score == many_scorings[k].score
        && few_scorings[k].positions@ == many_scorings[k].positions@ by {
        assert(may_say(scorer, candidates[k].components, few_scorings[k]));
        assert(may_say(scorer, candidates[k].components, many_scorings[k]));
    }
    law_best_under_a_smaller_limit_come_first(
        few,
        many,
        candidates,
        few_scorings,
        many_scorings,
        fewer,
        more,
    );
    let order = choose|order: Seq<usize>|
        {
            &&& #[trigger] is_ranking(order, scores_of(few_scorings), fewer)
            &&& few.len() == order.len()
            &&& forall|i: int|
                0 <= i < few.len() ==> (#[trigger] few[i])@ == scored_result(
                    candidates[order[i] as int],
                    few_scorings[order[i] as int].score,
                    few_scorings[order[i] as int].positions@,
                )
        };
    assert forall|i: int, j: int| 0 <= i < j < few.len() implies (#[trigger] few[i]).score >= (
    #[trigger] few[j]).score by {
        assert(ranks_before(scores_of(few_scorings), order[i] as int, order[j] as int));
        assert(few[i]@.score == few_scorings[order[i] as int].score);
        assert(few[j]@.score == few_scorings[order[j] as int].score);
    }
}

/// A found file as a mathematical value says all that the file does, and files of a list
/// keep their places.
pub proof fn law_candidate_as_value(candidates: Seq<Candidate>, index: int, place: int)
    requires
        0 <= index < candidates.len(),
    ensures
        candidate_models(candidates).len() == candidates.len(),
        ({
            let model = candidate_models(candidates)[index];
            let candidate = candidates[index];
            &&& model.tree_id == candidate.tree_id
            &&& model.relative_path.len() == candidate.relative_path@.len()
            &&& 0 <= place < model.relative_path.len() ==> model.relative_path[place]
                == candidate.relative_path@[place]@
            &&& model.components.len() == candidate.components@.len()
            &&& 0 <= place < model.components.len() ==> model.components[place]
                == candidate.components@[place]@
        }),
{
}

/// A result as a mathematical value says all that the result does.
pub proof fn law_result_as_value(result: PathSearchResult, place: int)
    ensures
        result@.score == result.score,
        result@.positions == result.positions@,
        result@.tree_id == result.tree_id,
        result@.display_path == result.display_path@,
        result@.relative_path.len() == result.relative_path@.len(),
        0 <= place < result.relative_path@.len() ==> result@.relative_path[place]
            == result.relative_path@[place]@,
{
}

/// What a scorer may say of components is what it says of just these, in order.
pub proof fn law_scorer_is_asked<F: Fn(&Vec<Vec<char>>) -> Scoring>(
    scorer: F,
    components: Seq<Seq<char>>,
    scoring: Scoring,
)
    requires
        may_say(scorer, components, scoring),
    ensures
        exists|given: Vec<Vec<char>>|
            {
                &&& #[trigger] scorer.ensures((&given,), scoring)
                &&& given@.len() == components.len()
                &&& forall|i: int|
                    0 <= i < components.len() ==> (#[trigger] given@[i])@ == components[i]
            },
{
    let given = choose|given: Vec<Vec<char>>|
        component_models(given@) == components && #[trigger] scorer.ensures((&given,), scoring);
    assert forall|i: int| 0 <= i < components.len() implies (#[trigger] given@[i])@
        == components[i] by {
        assert(component_models(given@)[i] == given@[i]@);
    }
    assert(component_models(given@).len() == given@.len());
}

/// A search asks after ten thousand entries whether anybody still wants it, and after a
/// thousand once it walks through found files.
pub proof fn law_intervals()
    ensures
        MARKING_INTERVAL == 10000,
        WALKING_INTERVAL == 1000,
{
}

/// Of two results, the one with the lower score is the greater; those with one score are
/// equal in rank.
pub proof fn law_order_of_results(first: PathSearchResult, second: PathSearchResult)
    ensures
        first.score > second.score ==> vstd::std_specs::cmp::PartialOrdSpec::partial_cmp_spec(
            &first,
            &second,
        ) == Some(std::cmp::Ordering::Less),
        first.score < second.score ==> vstd::std_specs::cmp::PartialOrdSpec::partial_cmp_spec(
            &first,
            &second,
        ) == Some(std::cmp::Ordering::Greater),
        first.score == second.score ==> vstd::std_specs::cmp::PartialOrdSpec::partial_cmp_spec(
            &first,
            &second,
        ) == Some(std::cmp::Ordering::Equal),
{
}

} // verus!
