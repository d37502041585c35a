//! Trees of files that several replicas edit together.

use std::collections::{hash_map, HashMap};
use std::rc::Rc;

use futures::unsync::mpsc::{UnboundedReceiver, UnboundedSender};
use vstd::prelude::*;

use crate::buffer::{Buffer, BufferId, BufferModel};
use crate::error::{Error, MemoError};
use crate::fs::{self, FileStatus, FileType};
use crate::git::Oid;
use crate::network::{self, EnvelopeModel, NetworkProvider, Operation, OperationEnvelope};
use crate::path_search;
use crate::text;
use crate::weak_set::{self, WeakSet};

verus! {

/// A file or directory as a tree lists it.
#[derive(Debug)]
pub struct Entry {
    pub file_type: FileType,
    pub depth: usize,
    pub name: String,
    pub path: String,
    pub base_path: Option<String>,
    pub status: FileStatus,
    pub visible: bool,
}

/// A listed entry as a mathematical value.
#[verifier::ext_equal]
pub struct EntryModel {
    pub file_type: FileType,
    pub depth: usize,
    pub name: Seq<char>,
    pub path: Seq<char>,
    pub base_path: Option<Seq<char>>,
    pub status: FileStatus,
    pub visible: bool,
}

impl View for Entry {
    type V = EntryModel;

    open spec fn view(&self) -> EntryModel {
        EntryModel {
            file_type: self.file_type,
            depth: self.depth,
            name: self.name@,
            path: self.path@,
            base_path: match self.base_path {
                Some(path) => Some(path@),
                None => None,
            },
            status: self.status,
            visible: self.visible,
        }
    }
}

pub open spec fn entry_models(entries: Seq<Entry>) -> Seq<EntryModel> {
    entries.map_values(|entry: Entry| entry@)
}

/// The first entry, from one of them on, that is no deeper than some depth.
pub open spec fn up_to(rows: Seq<EntryModel>, from: int, depth: int) -> int
    decreases rows.len() - from,
{
    if from >= rows.len() || rows[from].depth <= depth {
        from
    } else {
        up_to(rows, from + 1, depth)
    }
}

pub proof fn lemma_up_to(rows: Seq<EntryModel>, from: int, depth: int)
    requires
        0 <= from <= rows.len(),
    ensures
        from <= up_to(rows, from, depth) <= rows.len(),
        forall|i: int| from <= i < up_to(rows, from, depth) ==> (#[trigger] rows[i]).depth > depth,
        up_to(rows, from, depth) < rows.len() ==> rows[up_to(rows, from, depth)].depth <= depth,
    decreases rows.len() - from,
{
    if from < rows.len() && rows[from].depth > depth {
        lemma_up_to(rows, from + 1, depth);
    }
}

/// Whether an entry is listed: a removed one only where that is asked for.
pub open spec fn is_listed(row: EntryModel, show_deleted: bool) -> bool {
    show_deleted || row.status != FileStatus::Removed
}

/// Whether what is in a listed directory is listed too: where that directory is
/// among those that are asked for, or all are.
pub open spec fn is_opened(row: EntryModel, descend_into: Option<Seq<Seq<char>>>) -> bool {
    match descend_into {
        Some(paths) => paths.contains(row.path),
        None => true,
    }
}

/// The entry that comes after one of them: what is in it, where that is listed, or
/// what comes behind all that is in it.
pub open spec fn next_row(
    rows: Seq<EntryModel>,
    from: int,
    descend_into: Option<Seq<Seq<char>>>,
    show_deleted: bool,
) -> int {
    if is_listed(rows[from], show_deleted) && is_opened(rows[from], descend_into) {
        from + 1
    } else {
        up_to(rows, from + 1, rows[from].depth as int)
    }
}

/// The entries that are listed from one of them on. What is in a removed directory
/// is left out with it.
pub open spec fn listed(
    rows: Seq<EntryModel>,
    from: int,
    descend_into: Option<Seq<Seq<char>>>,
    show_deleted: bool,
) -> Seq<EntryModel>
    decreases rows.len() - from,
{
    if from < 0 || from >= rows.len() {
        Seq::empty()
    } else {
        proof {
            lemma_up_to(rows, from + 1, rows[from].depth as int);
        }
        let rest = listed(
            rows,
            next_row(rows, from, descend_into, show_deleted),
            descend_into,
            show_deleted,
        );
        if is_listed(rows[from], show_deleted) {
            seq![rows[from]] + rest
        } else {
            rest
        }
    }
}

/// A file, or a directory with what is in it, as a mathematical value.
pub struct Node {
    pub name: Seq<char>,
    pub symlink: bool,
    pub ignored: bool,
    pub children: Option<Seq<Node>>,
}

/// An entry of a tree as a mathematical value.
pub open spec fn node(entry: fs::Entry) -> Node
    decreases entry,
{
    Node {
        name: entry.name@,
        symlink: entry.symlink,
        ignored: entry.ignored,
        children: match entry.children {
            Some(children) => Some(nodes(children@)),
            None => None,
        },
    }
}

pub open spec fn nodes(entries: Seq<fs::Entry>) -> Seq<Node>
    decreases entries,
{
    if entries.len() == 0 {
        Seq::empty()
    } else {
        nodes(entries.drop_last()).push(node(entries.last()))
    }
}

/// What the entries from one of them up to another amount to, in a directory whose
/// own entries are at some depth: each directory among them holds the deeper entries
/// that follow it. None of them is a symbolic link.
pub open spec fn forest(rows: Seq<EntryModel>, from: int, end: int, depth: int) -> Seq<Node>
    decreases end - from,
{
    if from < 0 || from >= end || end > rows.len() {
        Seq::empty()
    } else {
        proof {
            lemma_up_to(rows.take(end), from + 1, depth);
        }
        let row = rows[from];
        let behind = if row.file_type == FileType::Directory {
            up_to(rows.take(end), from + 1, depth)
        } else {
            from + 1
        };
        let children = if row.file_type == FileType::Directory {
            Some(forest(rows, from + 1, behind, depth + 1))
        } else {
            None
        };
        seq![Node { name: row.name, symlink: false, ignored: !row.visible, children }] + forest(
            rows,
            behind,
            end,
            depth,
        )
    }
}

/// Entries that follow one of no more than some depth do not count for those before
/// it.
proof fn lemma_up_to_agrees(
    rows: Seq<EntryModel>,
    from: int,
    middle: int,
    end: int,
    depth: int,
)
    requires
        0 <= from <= middle <= end <= rows.len(),
        middle < end ==> rows[middle].depth <= depth,
    ensures
        up_to(rows.take(end), from, depth) == up_to(rows.take(middle), from, depth),
    decreases middle - from,
{
    if from < middle {
        lemma_up_to_agrees(rows, from + 1, middle, end, depth);
    }
}

/// What entries amount to can be told in two parts, where the second begins with an
/// entry of the directory itself.
pub proof fn lemma_forest_splits(
    rows: Seq<EntryModel>,
    from: int,
    middle: int,
    end: int,
    depth: int,
)
    requires
        0 <= from <= middle <= end <= rows.len(),
        middle < end ==> rows[middle].depth <= depth,
    ensures
        forest(rows, from, end, depth) == forest(rows, from, middle, depth) + forest(
            rows,
            middle,
            end,
            depth,
        ),
    decreases end - from,
{
    if from < middle {
        lemma_up_to(rows.take(middle), from + 1, depth);
        lemma_up_to_agrees(rows, from + 1, middle, end, depth);
        let behind = if rows[from].file_type == FileType::Directory {
            up_to(rows.take(middle), from + 1, depth)
        } else {
            from + 1
        };
        lemma_forest_splits(rows, behind, middle, end, depth);
        assert(forest(rows, from, end, depth) =~= forest(rows, from, middle, depth) + forest(
            rows,
            middle,
            end,
            depth,
        ));
    } else {
        assert(forest(rows, from, middle, depth) =~= Seq::empty());
        assert(forest(rows, from, end, depth) =~= forest(rows, from, middle, depth) + forest(
            rows,
            middle,
            end,
            depth,
        ));
    }
}

/// What a row of a listing says of an entry: how deep it is, its name, whether it is a
/// directory, and whether it is ignored.
pub struct Line {
    pub depth: int,
    pub name: Seq<char>,
    pub is_dir: bool,
    pub ignored: bool,
}

/// Files and directories listed row by row, each directory before what is in it.
pub open spec fn lines(nodes: Seq<Node>, depth: int) -> Seq<Line>
    decreases nodes,
{
    if nodes.len() == 0 {
        Seq::empty()
    } else {
        let first = nodes[0];
        let line = Line {
            depth,
            name: first.name,
            is_dir: first.children is Some,
            ignored: first.ignored,
        };
        let below = match first.children {
            Some(children) => lines(children, depth + 1),
            None => Seq::empty(),
        };
        seq![line] + below + lines(nodes.drop_first(), depth)
    }
}

pub open spec fn row_lines(rows: Seq<EntryModel>) -> Seq<Line> {
    rows.map_values(
        |row: EntryModel|
            Line {
                depth: row.depth as int,
                name: row.name,
                is_dir: row.file_type == FileType::Directory,
                ignored: !row.visible,
            },
    )
}

/// Whether an entry is in the directory before it, beside the entry before it, or
/// further out.
pub open spec fn follows(rows: Seq<EntryModel>, i: int) -> bool {
    1 <= rows[i].depth <= rows[i - 1].depth + if rows[i - 1].file_type == FileType::Directory {
        1int
    } else {
        0
    }
}

/// Whether rows list a tree: the first is in the root, and each of the others follows the
/// one before it.
pub open spec fn list_a_tree(rows: Seq<EntryModel>) -> bool {
    &&& rows.len() > 0 ==> rows[0].depth == 1
    &&& forall|i: int| 0 < i < rows.len() ==> #[trigger] follows(rows, i)
}

/// The tree that rows amount to lists the same rows.
pub proof fn law_tree_lists_its_rows(rows: Seq<EntryModel>)
    requires
        list_a_tree(rows),
    ensures
        lines(forest(rows, 0, rows.len() as int, 1), 1) == row_lines(rows),
{
    assert forall|i: int| 0 <= i < rows.len() implies (#[trigger] rows[i]).depth >= 1 by {
        if i > 0 {
            assert(follows(rows, i));
        }
    }
    lemma_forest_lists(rows, 0, rows.len() as int, 1);
    assert(rows.subrange(0, rows.len() as int) =~= rows);
}

/// A listing goes on behind what is in its first entry.
proof fn lemma_first_lists(rows: Seq<EntryModel>, from: int, behind: int, end: int, depth: int)
    requires
        0 <= from < behind <= end <= rows.len(),
        rows[from].depth == depth,
        behind == if rows[from].file_type == FileType::Directory {
            up_to(rows.take(end), from + 1, depth)
        } else {
            from + 1
        },
        rows[from].file_type == FileType::Directory ==> lines(
            forest(rows, from + 1, behind, depth + 1),
            depth + 1,
        ) == row_lines(rows.subrange(from + 1, behind)),
        lines(forest(rows, behind, end, depth), depth) == row_lines(rows.subrange(behind, end)),
    ensures
        lines(forest(rows, from, end, depth), depth) == row_lines(rows.subrange(from, end)),
{
    let all = forest(rows, from, end, depth);
    let is_dir = rows[from].file_type == FileType::Directory;
    let first = row_lines(rows.subrange(from, from + 1));
    let below = if is_dir {
        row_lines(rows.subrange(from + 1, behind))
    } else {
        Seq::empty()
    };
    let rest = row_lines(rows.subrange(behind, end));
    assert(all[0] == (Node {
        name: rows[from].name,
        symlink: false,
        ignored: !rows[from].visible,
        children: if is_dir {
            Some(forest(rows, from + 1, behind, depth + 1))
        } else {
            None
        },
    }));
    assert(all.drop_first() =~= forest(rows, behind, end, depth));
    assert(lines(all, depth) =~= first + below + rest);
    assert(row_lines(rows.subrange(from, end)) =~= first + below + rest);
}

proof fn lemma_forest_lists(rows: Seq<EntryModel>, from: int, end: int, depth: int)
    requires
        list_a_tree(rows),
        0 <= from <= end <= rows.len(),
        from < end ==> rows[from].depth == depth,
        forall|i: int| from <= i < end ==> (#[trigger] rows[i]).depth >= depth,
    ensures
        lines(forest(rows, from, end, depth), depth) == row_lines(rows.subrange(from, end)),
    decreases end - from,
{
    if from < end {
        let row = rows[from];
        let is_dir = row.file_type == FileType::Directory;
        lemma_up_to(rows.take(end), from + 1, depth);
        let behind = if is_dir {
            up_to(rows.take(end), from + 1, depth)
        } else {
            from + 1
        };
        assert forall|i: int| from < i < behind implies (#[trigger] rows[i]).depth >= depth
            + 1 by {
            assert(rows.take(end)[i] == rows[i]);
        }
        if from + 1 < end {
            assert(follows(rows, from + 1));
        }
        if behind < end {
            assert(rows.take(end)[behind] == rows[behind]);
            assert(rows[behind].depth >= depth);
        }
        lemma_forest_lists(rows, behind, end, depth);
        if is_dir {
            lemma_forest_lists(rows, from + 1, behind, depth + 1);
        }
        lemma_first_lists(rows, from, behind, end, depth);
    } else {
        assert(forest(rows, from, end, depth) =~= Seq::<Node>::empty());
        assert(lines(forest(rows, from, end, depth), depth) =~= row_lines(
            rows.subrange(from, end),
        ));
    }
}

/// Whether no two of some nodes have one name.
pub open spec fn distinct_names(nodes: Seq<Node>) -> bool {
    forall|i: int, j: int| 0 <= i < j < nodes.len() ==> nodes[i].name != nodes[j].name
}

/// Whether no two nodes of one directory have one name, in each directory that
/// entries amount to.
pub open spec fn names_fit(rows: Seq<EntryModel>, from: int, end: int, depth: int) -> bool
    decreases end - from,
{
    0 <= from < end <= rows.len() ==> {
        proof {
            lemma_up_to(rows.take(end), from + 1, depth);
        }
        let behind = if rows[from].file_type == FileType::Directory {
            up_to(rows.take(end), from + 1, depth)
        } else {
            from + 1
        };
        &&& distinct_names(forest(rows, from, end, depth))
        &&& rows[from].file_type == FileType::Directory ==> names_fit(
            rows,
            from + 1,
            behind,
            depth + 1,
        )
        &&& names_fit(rows, behind, end, depth)
    }
}

/// Names that differ in two parts of a directory, and in what these amount to
/// together, differ in all of it.
pub proof fn lemma_names_fit_together(
    rows: Seq<EntryModel>,
    from: int,
    middle: int,
    end: int,
    depth: int,
)
    requires
        0 <= from <= middle <= end <= rows.len(),
        middle < end ==> rows[middle].depth <= depth,
        names_fit(rows, from, middle, depth),
        names_fit(rows, middle, end, depth),
        distinct_names(forest(rows, from, end, depth)),
    ensures
        names_fit(rows, from, end, depth),
    decreases end - from,
{
    if from < middle {
        lemma_up_to(rows.take(middle), from + 1, depth);
        lemma_up_to_agrees(rows, from + 1, middle, end, depth);
        let behind = if rows[from].file_type == FileType::Directory {
            up_to(rows.take(middle), from + 1, depth)
        } else {
            from + 1
        };
        let all = forest(rows, from, end, depth);
        let rest = forest(rows, behind, end, depth);
        assert(rest =~= all.skip(1));
        assert forall|i: int, j: int| 0 <= i < j < rest.len() implies rest[i].name
            != rest[j].name by {
            assert(all[i + 1].name != all[j + 1].name);
        }
        lemma_names_fit_together(rows, behind, middle, end, depth);
    }
}

/// Whether entries amount to a tree: each is in the root at least, and no two of one
/// directory have one name.
pub open spec fn fits_a_tree(rows: Seq<EntryModel>) -> bool {
    &&& forall|i: int| 0 <= i < rows.len() ==> (#[trigger] rows[i]).depth >= 1
    &&& names_fit(rows, 0, rows.len() as int, 1)
}

proof fn lemma_nodes(entries: Seq<fs::Entry>)
    ensures
        nodes(entries).len() == entries.len(),
        forall|i: int| 0 <= i < entries.len() ==> #[trigger] nodes(entries)[i] == node(entries[i]),
    decreases entries.len(),
{
    if entries.len() > 0 {
        lemma_nodes(entries.drop_last());
    }
}

/// A copy of a listed entry.
fn copy_entry(entry: &Entry) -> (copy: Entry)
    ensures
        copy@ == entry@,
{
    Entry {
        file_type: entry.file_type,
        depth: entry.depth,
        name: entry.name.clone(),
        path: entry.path.clone(),
        base_path: match &entry.base_path {
            Some(path) => Some(path.clone()),
            None => None,
        },
        status: entry.status,
        visible: entry.visible,
    }
}

/// Whether a path is among others.
fn has_path(paths: &Vec<String>, path: &String) -> (has_path: bool)
    ensures
        has_path == path_search::name_models(paths@).contains(path@),
{
    let mut i: usize = 0;
    while i < paths.len()
        invariant
            i <= paths@.len(),
            forall|j: int| 0 <= j < i ==> (#[trigger] paths@[j])@ != path@,
        decreases paths@.len() - i,
    {
        if paths[i] == *path {
            assert(path_search::name_models(paths@)[i as int] == path@);
            return true;
        }
        i += 1;
    }
    proof {
        if path_search::name_models(paths@).contains(path@) {
            let j = choose|j: int|
                0 <= j < paths@.len() && path_search::name_models(paths@)[j] == path@;
            assert(paths@[j]@ == path@);
        }
    }
    false
}

/// The paths that a listing descends into, as mathematical values.
pub open spec fn path_models(paths: Option<Vec<String>>) -> Option<Seq<Seq<char>>> {
    match paths {
        Some(paths) => Some(path_search::name_models(paths@)),
        None => None,
    }
}

/// The first entry, from one of them on, that is no deeper than some depth.
fn skip_deeper(rows: &Vec<Entry>, from: usize, end: usize, depth: usize) -> (next: usize)
    requires
        from <= end <= rows@.len(),
    ensures
        next == up_to(entry_models(rows@).take(end as int), from as int, depth as int),
        from <= next <= end,
        from < next ==> depth < rows@[from as int].depth,
{
    let ghost some = entry_models(rows@).take(end as int);
    let mut next: usize = from;
    while next < end && rows[next].depth > depth
        invariant
            from <= next <= end <= rows@.len(),
            some == entry_models(rows@).take(end as int),
            up_to(some, next as int, depth as int) == up_to(some, from as int, depth as int),
            from < next ==> depth < rows@[from as int].depth,
        decreases end - next,
    {
        next += 1;
    }
    next
}

/// The entries of a listing that are to be shown.
pub fn list_entries(
    rows: &Vec<Entry>,
    descend_into: &Option<Vec<String>>,
    show_deleted: Option<bool>,
) -> (entries: Vec<Entry>)
    ensures
        entry_models(entries@) == listed(
            entry_models(rows@),
            0,
            path_models(*descend_into),
            show_deleted == Some(true),
        ),
{
    let ghost all = entry_models(rows@);
    let ghost into = path_models(*descend_into);
    let show_deleted: bool = match show_deleted {
        Some(show_deleted) => show_deleted,
        None => false,
    };
    let mut entries: Vec<Entry> = Vec::new();
    let mut from: usize = 0;
    assert(entry_models(entries@) =~= Seq::empty());
    while from < rows.len()
        invariant
            from <= rows@.len(),
            all == entry_models(rows@),
            into == path_models(*descend_into),
            entry_models(entries@) + listed(all, from as int, into, show_deleted) == listed(
                all,
                0,
                into,
                show_deleted,
            ),
        decreases rows@.len() - from,
    {
        let row = &rows[from];
        let ghost before = entry_models(entries@);
        proof {
            lemma_up_to(all, from + 1, all[from as int].depth as int);
            assert(all.take(rows@.len() as int) =~= all);
        }
        let shown: bool = show_deleted || row.status != FileStatus::Removed;
        let mut descend = false;
        if shown {
            let copy = copy_entry(row);
            entries.push(copy);
            assert(entry_models(entries@) =~= before.push(all[from as int]));
            descend = match descend_into {
                Some(paths) => has_path(paths, &row.path),
                None => true,
            };
        }
        let ghost at = from as int;
        if descend {
            from += 1;
        } else {
            from = skip_deeper(rows, from + 1, rows.len(), row.depth);
        }
        proof {
            assert(from == next_row(all, at, into, show_deleted));
            assert(entry_models(entries@) + listed(all, from as int, into, show_deleted)
                =~= before + listed(all, at, into, show_deleted));
        }
    }
    assert(entry_models(entries@) =~= listed(all, 0, into, show_deleted));
    entries
}

/// Puts the entries from one of them up to another into a directory. Numbers are
/// given out in order.
fn fill(
    dir: &mut fs::Entry,
    rows: &Vec<Entry>,
    from: usize,
    end: usize,
    depth: usize,
    first_id: fs::EntryId,
)
    requires
        from <= end <= rows@.len(),
        first_id + end <= u128::MAX,
        old(dir).children matches Some(children) && children@ == Seq::<fs::Entry>::empty(),
        names_fit(entry_models(rows@), from as int, end as int, depth as int),
    ensures
        final(dir).id == old(dir).id,
        final(dir).name == old(dir).name,
        final(dir).symlink == old(dir).symlink,
        final(dir).ignored == old(dir).ignored,
        final(dir).children matches Some(children) && {
            &&& nodes(children@) == forest(
                entry_models(rows@),
                from as int,
                end as int,
                depth as int,
            )
            &&& path_search::distinct_ids(children@)
            &&& forall|id: fs::EntryId| #[trigger]
                path_search::ids(children@).contains(id) ==> first_id + from <= id < first_id + end
        },
    decreases end - from,
{
    let ghost all = entry_models(rows@);
    let ghost whole = forest(all, from as int, end as int, depth as int);
    let mut at: usize = from;
    assert(nodes(dir.children->0@) =~= Seq::empty());
    while at < end
        invariant
            from <= at <= end <= rows@.len(),
            first_id + end <= u128::MAX,
            all == entry_models(rows@),
            whole == forest(all, from as int, end as int, depth as int),
            at < end ==> distinct_names(whole),
            dir.id == old(dir).id,
            dir.name == old(dir).name,
            dir.symlink == old(dir).symlink,
            dir.ignored == old(dir).ignored,
            dir.children is Some,
            nodes(dir.children->0@) + forest(all, at as int, end as int, depth as int) == whole,
            names_fit(all, at as int, end as int, depth as int),
            path_search::distinct_ids(dir.children->0@),
            forall|id: fs::EntryId| #[trigger]
                path_search::ids(dir.children->0@).contains(id) ==> first_id + from <= id < first_id
                    + at,
        decreases end - at,
    {
        let row = &rows[at];
        let ghost before = dir.children->0@;
        let ghost rest = forest(all, at as int, end as int, depth as int);
        proof {
            lemma_up_to(all.take(end as int), at + 1, depth as int);
        }
        let mut child: fs::Entry;
        let mut behind: usize = at + 1;
        match row.file_type {
            FileType::Directory => {
                child = fs::Entry::dir(first_id + at as u128, row.name.clone(), false, !row.visible);
                behind = skip_deeper(rows, at + 1, end, depth);
                if at + 1 < behind {
                    fill(&mut child, rows, at + 1, behind, depth + 1, first_id);
                } else {
                    assert(nodes(child.children->0@) =~= Seq::empty());
                    assert(path_search::ids(child.children->0@) =~= Set::empty());
                    assert(forest(all, at + 1, behind as int, depth + 1) =~= Seq::empty());
                }
                assert(node(child).children == Some(
                    forest(all, at + 1, behind as int, depth + 1),
                ));
                assert(path_search::entry_distinct_ids(child));
            },
            FileType::Text => {
                child = fs::Entry::file(first_id + at as u128, row.name.clone(), false, !row.visible);
            },
        }
        proof {
            assert(node(child) == rest[0]);
            lemma_nodes(before);
            assert forall|i: int| 0 <= i < before.len() implies (#[trigger] before[i]).name@
                != child.name@ by {
                assert(whole[i] == nodes(before)[i]);
                assert(whole[before.len() as int] == rest[0]);
                assert(nodes(before)[i] == node(before[i]));
            }
            assert(!fs::has_name(before, child.name@));
        }
        let ghost added = child;
        let _ = dir.insert(child);
        proof {
            let after = dir.children->0@;
            assert(after == before.push(added));
            assert(after.drop_last() =~= before);
            assert(nodes(after) =~= nodes(before).push(node(added)));
            assert(nodes(after) + forest(all, behind as int, end as int, depth as int) =~= nodes(
                before,
            ) + rest);
            assert forall|id: fs::EntryId| #[trigger]
                path_search::entry_ids(added).contains(id) implies first_id + at <= id < first_id
                + behind by {
                if id != added.id {
                    assert(path_search::ids(added.children->0@).contains(id));
                }
            }
            assert(path_search::ids(before).disjoint(path_search::entry_ids(added)));
            assert(path_search::entry_distinct_ids(added));
            assert(path_search::distinct_ids(after.drop_last()));
            assert(after.last() == added);
            assert(path_search::distinct_ids(after));
            assert forall|id: fs::EntryId| #[trigger]
                path_search::ids(after).contains(id) implies first_id + from <= id < first_id
                + behind by {
                assert(path_search::ids(before).contains(id) || path_search::entry_ids(
                    added,
                ).contains(id));
            }
        }
        at = behind;
    }
    assert(nodes(dir.children->0@) =~= whole);
}

/// The directory that a listing amounts to. Removed entries are left out.
pub fn build_root(rows: &Vec<Entry>, first_id: fs::EntryId) -> (root: fs::Entry)
    requires
        first_id + rows@.len() < u128::MAX,
        ({
            let shown = listed(entry_models(rows@), 0, None, false);
            fits_a_tree(shown)
        }),
    ensures
        root.id == first_id,
        root.name@ == "/"@,
        !root.symlink,
        !root.ignored,
        root.children matches Some(children) && nodes(children@) == ({
            let shown = listed(entry_models(rows@), 0, None, false);
            forest(shown, 0, shown.len() as int, 1)
        }),
        path_search::entry_distinct_ids(root),
        forall|id: fs::EntryId| #[trigger]
            path_search::entry_ids(root).contains(id) ==> first_id <= id <= first_id + rows@.len(),
{
    let none: Option<Vec<String>> = None;
    let shown = list_entries(rows, &none, Some(false));
    proof {
        lemma_listed_len(entry_models(rows@), 0, None, false);
    }
    let mut root = fs::Entry::dir(first_id, "/".to_string(), false, false);
    fill(&mut root, &shown, 0, shown.len(), 1, first_id + 1);
    proof {
        assert forall|id: fs::EntryId| #[trigger]
            path_search::entry_ids(root).contains(id) implies first_id <= id <= first_id
            + rows@.len() by {
            if id != root.id {
                assert(path_search::ids(root.children->0@).contains(id));
            }
        }
    }
    root
}

/// No more entries are shown than are listed.
proof fn lemma_listed_len(
    rows: Seq<EntryModel>,
    from: int,
    descend_into: Option<Seq<Seq<char>>>,
    show_deleted: bool,
)
    requires
        0 <= from <= rows.len(),
    ensures
        listed(rows, from, descend_into, show_deleted).len() <= rows.len() - from,
    decreases rows.len() - from,
{
    if from < rows.len() {
        lemma_up_to(rows, from + 1, rows[from].depth as int);
        lemma_listed_len(
            rows,
            next_row(rows, from, descend_into, show_deleted),
            descend_into,
            show_deleted,
        );
    }
}

/// Whether one entry of a listing is in another: it comes behind it, and everything from
/// there up to it is deeper.
pub open spec fn is_in(rows: Seq<EntryModel>, inner: int, outer: int) -> bool {
    &&& 0 <= outer < inner < rows.len()
    &&& forall|k: int| outer < k <= inner ==> (#[trigger] rows[k]).depth > rows[outer].depth
}

/// Whether an entry is to be shown: neither it nor an entry that it is in is removed,
/// unless removed entries are asked for; and the path of each entry that it is in is
/// asked for, unless all are.
pub open spec fn is_shown(
    rows: Seq<EntryModel>,
    index: int,
    descend_into: Option<Seq<Seq<char>>>,
    show_deleted: bool,
) -> bool {
    &&& show_deleted || rows[index].status != FileStatus::Removed
    &&& forall|outer: int| #[trigger]
        is_in(rows, index, outer) ==> {
            &&& show_deleted || rows[outer].status != FileStatus::Removed
            &&& descend_into matches Some(paths) ==> paths.contains(rows[outer].path)
        }
}

/// Whether places in a listing come in order and are just those from one of them on
/// whose entries are to be shown.
pub open spec fn are_shown(
    rows: Seq<EntryModel>,
    from: int,
    descend_into: Option<Seq<Seq<char>>>,
    show_deleted: bool,
    places: Seq<int>,
) -> bool {
    &&& forall|k: int| 0 <= k < places.len() ==> from <= #[trigger] places[k] < rows.len()
    &&& forall|j: int, k: int| 0 <= j < k < places.len() ==> places[j] < places[k]
    &&& forall|i: int|
        from <= i < rows.len() ==> (#[trigger] places.contains(i) <==> is_shown(
            rows,
            i,
            descend_into,
            show_deleted,
        ))
}

/// Where a walk through a listing stands at an entry, every entry that it is in is
/// shown and looked into.
spec fn is_open_way(
    rows: Seq<EntryModel>,
    from: int,
    descend_into: Option<Seq<Seq<char>>>,
    show_deleted: bool,
) -> bool {
    forall|outer: int| #[trigger]
        is_in(rows, from, outer) ==> is_listed(rows[outer], show_deleted) && is_opened(
            rows[outer],
            descend_into,
        )
}

/// The places of the entries that are listed from one of them on.
proof fn lemma_listed_places(
    rows: Seq<EntryModel>,
    from: int,
    descend_into: Option<Seq<Seq<char>>>,
    show_deleted: bool,
) -> (places: Seq<int>)
    requires
        0 <= from <= rows.len(),
        from < rows.len() ==> is_open_way(rows, from, descend_into, show_deleted),
    ensures
        are_shown(rows, from, descend_into, show_deleted, places),
        listed(rows, from, descend_into, show_deleted) == places.map_values(|i: int| rows[i]),
    decreases rows.len() - from,
{
    if from >= rows.len() {
        let places = Seq::<int>::empty();
        assert(listed(rows, from, descend_into, show_deleted) =~= places.map_values(
            |i: int| rows[i],
        ));
        places
    } else {
        let next = next_row(rows, from, descend_into, show_deleted);
        let depth = rows[from].depth as int;
        let enters = is_listed(rows[from], show_deleted) && is_opened(rows[from], descend_into);
        lemma_up_to(rows, from + 1, depth);
        assert forall|i: int| from < i < next implies !is_shown(
            rows,
            i,
            descend_into,
            show_deleted,
        ) by {
            assert(is_in(rows, i, from));
        }
        if next < rows.len() {
            assert forall|outer: int| #[trigger] is_in(rows, next, outer) implies is_listed(
                rows[outer],
                show_deleted,
            ) && is_opened(rows[outer], descend_into) by {
                if outer < from {
                    assert(is_in(rows, from, outer));
                } else if outer > from {
                    assert(rows[outer].depth > depth);
                    assert(rows[next].depth <= depth);
                } else {
                    assert(rows[next].depth > rows[outer].depth);
                }
            }
        }
        let rest = lemma_listed_places(rows, next, descend_into, show_deleted);
        assert(is_shown(rows, from, descend_into, show_deleted) == is_listed(
            rows[from],
            show_deleted,
        ));
        let places = if is_listed(rows[from], show_deleted) {
            seq![from] + rest
        } else {
            rest
        };
        assert forall|i: int| from <= i < rows.len() implies (#[trigger] places.contains(i)
            <==> is_shown(rows, i, descend_into, show_deleted)) by {
            if places.contains(i) && i != from {
                let k = choose|k: int| 0 <= k < places.len() && places[k] == i;
                let at = if is_listed(rows[from], show_deleted) { k - 1 } else { k };
                assert(rest[at] == i);
                assert(rest.contains(i));
            }
            if i >= next && rest.contains(i) {
                let k = choose|k: int| 0 <= k < rest.len() && rest[k] == i;
                let at = if is_listed(rows[from], show_deleted) { k + 1 } else { k };
                assert(places[at] == i);
            }
            if i == from && is_listed(rows[from], show_deleted) {
                assert(places[0] == from);
            }
        }
        assert(listed(rows, from, descend_into, show_deleted) =~= places.map_values(
            |i: int| rows[i],
        ));
        places
    }
}

/// A listing shows, in order and once each, just the entries that are to be shown: at
/// every depth, those that neither are removed nor are in an entry that is, and for
/// which every entry that they are in is asked for.
pub proof fn law_listing_shows_what_is_asked_for(
    rows: Seq<EntryModel>,
    descend_into: Option<Seq<Seq<char>>>,
    show_deleted: bool,
) -> (places: Seq<int>)
    ensures
        are_shown(rows, 0, descend_into, show_deleted, places),
        listed(rows, 0, descend_into, show_deleted) == places.map_values(|i: int| rows[i]),
{
    lemma_listed_places(rows, 0, descend_into, show_deleted)
}

/// To ask for the path of every entry is to ask for everything; and to ask for no path
/// shows just the entries that are in no other.
pub proof fn law_listing_of_all_and_of_none(
    rows: Seq<EntryModel>,
    paths: Seq<Seq<char>>,
    show_deleted: bool,
)
    requires
        forall|i: int| 0 <= i < rows.len() ==> paths.contains((#[trigger] rows[i]).path),
    ensures
        listed(rows, 0, Some(paths), show_deleted) == listed(rows, 0, None, show_deleted),
        forall|i: int|
            0 <= i < rows.len() && is_shown(rows, i, Some(Seq::empty()), show_deleted)
                ==> forall|outer: int| !#[trigger] is_in(rows, i, outer),
{
    lemma_listing_of_all(rows, 0, paths, show_deleted);
    assert forall|i: int|
        0 <= i < rows.len() && is_shown(rows, i, Some(Seq::empty()), show_deleted) implies forall|
        outer: int,
    |
        !#[trigger] is_in(rows, i, outer) by {
        assert forall|outer: int| !#[trigger] is_in(rows, i, outer) by {
            if is_in(rows, i, outer) {
                assert(Seq::<Seq<char>>::empty().contains(rows[outer].path));
            }
        }
    }
}

proof fn lemma_listing_of_all(
    rows: Seq<EntryModel>,
    from: int,
    paths: Seq<Seq<char>>,
    show_deleted: bool,
)
    requires
        0 <= from <= rows.len(),
        forall|i: int| 0 <= i < rows.len() ==> paths.contains((#[trigger] rows[i]).path),
    ensures
        listed(rows, from, Some(paths), show_deleted) == listed(rows, from, None, show_deleted),
    decreases rows.len() - from,
{
    if from < rows.len() {
        lemma_up_to(rows, from + 1, rows[from].depth as int);
        assert(paths.contains(rows[from].path));
        lemma_listing_of_all(
            rows,
            next_row(rows, from, None, show_deleted),
            paths,
            show_deleted,
        );
    }
}

/// More is never shown where removed entries are left out, or where fewer paths are
/// asked for.
pub proof fn law_listing_grows(
    rows: Seq<EntryModel>,
    index: int,
    few: Seq<Seq<char>>,
    many: Seq<Seq<char>>,
    show_deleted: bool,
)
    requires
        0 <= index < rows.len(),
        forall|path: Seq<char>| #[trigger] few.contains(path) ==> many.contains(path),
        listed(rows, 0, Some(few), show_deleted).contains(rows[index]),
    ensures
        listed(rows, 0, Some(many), show_deleted).contains(rows[index]),
        listed(rows, 0, Some(many), true).contains(rows[index]),
        listed(rows, 0, None, show_deleted).contains(rows[index]),
{
    let places = law_listing_shows_what_is_asked_for(rows, Some(few), show_deleted);
    let shown = listed(rows, 0, Some(few), show_deleted);
    let k = choose|k: int| 0 <= k < shown.len() && shown[k] == rows[index];
    let place = places[k];
    assert(places.contains(place));
    lemma_shown_is_listed(rows, place, Some(many), show_deleted);
    lemma_shown_is_listed(rows, place, Some(many), true);
    lemma_shown_is_listed(rows, place, None, show_deleted);
}

proof fn lemma_shown_is_listed(
    rows: Seq<EntryModel>,
    place: int,
    descend_into: Option<Seq<Seq<char>>>,
    show_deleted: bool,
)
    requires
        0 <= place < rows.len(),
        is_shown(rows, place, descend_into, show_deleted),
    ensures
        listed(rows, 0, descend_into, show_deleted).contains(rows[place]),
{
    let places = law_listing_shows_what_is_asked_for(rows, descend_into, show_deleted);
    assert(places.contains(place));
    let k = choose|k: int| 0 <= k < places.len() && places[k] == place;
    assert(listed(rows, 0, descend_into, show_deleted)[k] == rows[place]);
}

/// A file that is opened again, whatever text it comes with, leaves the tree and its
/// buffers as they are.
pub proof fn law_opening_again_changes_nothing(
    before: WorkTreeModel,
    after: WorkTreeModel,
    again: WorkTreeModel,
    file: OpenedFile,
    other: OpenedFile,
)
    requires
        before.opens(file, after),
        other.buffer_id == file.buffer_id,
        after.opens(other, again),
    ensures
        again == (WorkTreeModel { handles: again.handles, ..after }),
{
}

/// Whether what was found at some place stands for a buffer.
pub open spec fn stands_for(
    answers: Seq<Option<Rc<BufferHandle>>>,
    i: int,
    buffer_id: BufferId,
) -> bool {
    0 <= i < answers.len() && (answers[i] matches Some(handle) && handle.id == buffer_id)
}

/// Whether no two of the handles stand for one buffer.
pub open spec fn distinct_handles(handles: Seq<BufferHandle>) -> bool {
    forall|i: int, j: int| 0 <= i < j < handles.len() ==> handles[i].id != handles[j].id
}

/// Whether a handle for a buffer was handed out, given which of those that were handed
/// out before turned out to be still held: the one that stands for the buffer, where
/// it is held, and otherwise one more.
pub open spec fn handed_out(
    before: Seq<BufferHandle>,
    answers: Seq<Option<Rc<BufferHandle>>>,
    buffer_id: BufferId,
    handle: Rc<BufferHandle>,
    after: Seq<BufferHandle>,
) -> bool {
    if exists|i: int| #[trigger] stands_for(answers, i, buffer_id) {
        &&& exists|i: int| #[trigger]
            stands_for(answers, i, buffer_id) && answers[i] == Some(handle)
        &&& after == weak_set::kept(before, answers)
    } else {
        &&& handle.id == buffer_id
        &&& after == weak_set::kept(before, answers).push(*handle)
    }
}

/// Where somebody still holds the handle for a buffer, that one is handed out, and no
/// other is made.
pub proof fn law_held_handle_is_handed_out_again(
    before: Seq<BufferHandle>,
    answers: Seq<Option<Rc<BufferHandle>>>,
    index: int,
    handle: Rc<BufferHandle>,
    after: Seq<BufferHandle>,
)
    requires
        distinct_handles(before),
        weak_set::answers_fit(before, answers),
        0 <= index < before.len(),
        answers[index] is Some,
        handed_out(before, answers, before[index].id, handle, after),
    ensures
        answers[index] == Some(handle),
        after == weak_set::kept(before, answers),
{
    let buffer_id = before[index].id;
    assert(stands_for(answers, index, buffer_id));
    let i = choose|i: int| #[trigger]
        stands_for(answers, i, buffer_id) && answers[i] == Some(handle);
    assert(before[i].id == before[index].id);
    if i < index {
        assert(before[i].id != before[index].id);
    } else if index < i {
        assert(before[index].id != before[i].id);
    }
}

/// What is handed out stands for the buffer, and no two of the handles that are known
/// from then on stand for one buffer.
proof fn lemma_handed_out(
    before: Seq<BufferHandle>,
    answers: Seq<Option<Rc<BufferHandle>>>,
    buffer_id: BufferId,
    handle: Rc<BufferHandle>,
    after: Seq<BufferHandle>,
)
    requires
        distinct_handles(before),
        weak_set::answers_fit(before, answers),
        handed_out(before, answers, buffer_id, handle, after),
    ensures
        handle.id == buffer_id,
        distinct_handles(after),
{
    let kept = weak_set::kept(before, answers);
    let places = weak_set::law_kept_are_members(before, answers);
    assert forall|i: int, j: int| 0 <= i < j < after.len() implies after[i].id != after[j].id by {
        assert(before[places[i]].id == after[i].id);
        if j < kept.len() {
            assert(before[places[i]].id != before[places[j]].id);
        } else {
            assert(answers[places[i]] is Some);
            assert(!stands_for(answers, places[i], buffer_id));
        }
    }
}

/// A buffer once some texts were taken in one by one: those that are given for it
/// become its text.
pub open spec fn retold(buffer: BufferModel, texts: Seq<(BufferId, Vec<u16>)>) -> BufferModel
    decreases texts.len(),
{
    if texts.len() == 0 {
        buffer
    } else {
        let before = retold(buffer, texts.drop_last());
        if texts.last().0 == buffer.id {
            before.with_text(texts.last().1@)
        } else {
            before
        }
    }
}

/// The last text that is given for a buffer becomes its text.
pub proof fn law_last_text_stands(
    buffer: BufferModel,
    texts: Seq<(BufferId, Vec<u16>)>,
    index: int,
)
    requires
        0 <= index < texts.len(),
        texts[index].0 == buffer.id,
        forall|j: int| index < j < texts.len() ==> (#[trigger] texts[j]).0 != buffer.id,
    ensures
        retold(buffer, texts).text == texts[index].1@,
    decreases texts.len(),
{
    if index < texts.len() - 1 {
        assert(texts[texts.len() - 1].0 != buffer.id);
        law_last_text_stands(buffer, texts.drop_last(), index);
    }
}

/// A buffer for which no text is given stays as it is.
pub proof fn law_other_buffers_stay(buffer: BufferModel, texts: Seq<(BufferId, Vec<u16>)>)
    requires
        forall|j: int| 0 <= j < texts.len() ==> (#[trigger] texts[j]).0 != buffer.id,
    ensures
        retold(buffer, texts) == buffer,
    decreases texts.len(),
{
    if texts.len() > 0 {
        assert(texts[texts.len() - 1].0 != buffer.id);
        law_other_buffers_stay(buffer, texts.drop_last());
    }
}

/// Whether a text is given for a buffer.
pub open spec fn is_retold(texts: Seq<(BufferId, Vec<u16>)>, buffer_id: BufferId) -> bool {
    exists|i: int| 0 <= i < texts.len() && (#[trigger] texts[i]).0 == buffer_id
}

/// Whether every text that is given can be edited.
pub open spec fn texts_fit(texts: Seq<(BufferId, Vec<u16>)>) -> bool {
    forall|i: int| 0 <= i < texts.len() ==> text::fits((#[trigger] texts[i]).1@)
}

/// What comes of a change that was made to a tree: the operation that is to be told,
/// the listing as it is now, and the texts that open buffers have now.
pub struct AppliedChange {
    pub envelope: OperationEnvelope,
    pub rows: Vec<Entry>,
    pub texts: Vec<(BufferId, Vec<u16>)>,
}

/// What a tree starts with: its listing, and operations that are yet to be told.
pub struct StartedTree {
    pub rows: Vec<Entry>,
    pub operations: Vec<OperationEnvelope>,
}

/// A tree that was just started: nothing is open in it.
pub open spec fn started(base: Option<Oid>, begun: StartedTree) -> WorkTreeModel {
    WorkTreeModel {
        head: base,
        rows: entry_models(begun.rows@),
        buffers: Map::empty(),
        handles: Seq::empty(),
        outgoing: network::envelope_models(begun.operations@),
    }
}

/// Whether the one difference is that somebody asked for what is told.
pub open spec fn subscribed(
    before: Seq<UnboundedSender<Operation>>,
    after: Seq<UnboundedSender<Operation>>,
    updates: UnboundedReceiver<Operation>,
) -> bool {
    exists|tx: UnboundedSender<Operation>| #[trigger]
        network::are_ends(tx, updates) && after == before.push(tx)
}

/// Whether operations were told, or it failed to tell them.
pub open spec fn told<P: NetworkProvider>(
    before: P,
    envelopes: Seq<EnvelopeModel>,
    after: P,
) -> bool {
    ||| after.log() == before.log() + envelopes && after.failures() == before.failures()
    ||| after.failures() == before.failures() + 1
}

/// Whether somebody asked for what is told, and only then operations were told, or it
/// failed to tell them.
pub open spec fn subscribed_and_told<P: NetworkProvider>(
    before: P,
    updates: UnboundedReceiver<Operation>,
    envelopes: Seq<EnvelopeModel>,
    after: P,
) -> bool {
    exists|middle: P|
        {
            &&& subscribed(before.subscribers(), middle.subscribers(), updates)
            &&& middle.log() == before.log()
            &&& middle.failures() == before.failures()
            &&& #[trigger] told(middle, envelopes, after)
            &&& after.subscribers() == middle.subscribers()
        }
}

/// A file as a tree opens it: the buffer that it is edited in, and the text that it
/// has where that buffer is new.
pub struct OpenedFile {
    pub buffer_id: BufferId,
    pub text: Vec<u16>,
}

/// What stands for an open buffer with those who use it.
#[derive(Debug)]
pub struct BufferHandle {
    pub id: BufferId,
}

/// A tree of files, with the buffers that are open in it, and the operations that
/// are yet to be told.
pub struct WorkTree {
    head: Option<Oid>,
    rows: Vec<Entry>,
    buffers: HashMap<BufferId, Buffer>,
    handles: WeakSet<BufferHandle>,
    outgoing: Vec<OperationEnvelope>,
}

/// A tree as a mathematical value.
#[verifier::ext_equal]
pub struct WorkTreeModel {
    pub head: Option<Oid>,
    pub rows: Seq<EntryModel>,
    pub buffers: Map<BufferId, Buffer>,
    pub handles: Seq<BufferHandle>,
    pub outgoing: Seq<EnvelopeModel>,
}

impl WorkTreeModel {
    /// The tree with more to tell.
    pub open spec fn telling(self, envelopes: Seq<EnvelopeModel>) -> WorkTreeModel {
        WorkTreeModel { outgoing: self.outgoing + envelopes, ..self }
    }

    /// Whether a tree is what comes of opening a file, but for the handles: a buffer that
    /// is there stays as it is, and a new one has the text of the file.
    pub open spec fn opens(self, file: OpenedFile, after: WorkTreeModel) -> bool {
        if self.buffers.contains_key(file.buffer_id) {
            after == (WorkTreeModel { handles: after.handles, ..self })
        } else {
            &&& after.buffers.contains_key(file.buffer_id)
            &&& after == (WorkTreeModel {
                buffers: self.buffers.insert(file.buffer_id, after.buffers[file.buffer_id]),
                handles: after.handles,
                ..self
            })
            &&& after.buffers[file.buffer_id]@ == (BufferModel {
                id: file.buffer_id,
                text: file.text@,
                local: Map::empty(),
                remote: Seq::empty(),
                next_set_id: 0,
                unseen: Seq::empty(),
                outgoing: Seq::empty(),
            })
        }
    }

    /// Whether a tree is what comes of taking in another listing and other texts for
    /// open buffers. Texts of buffers that are not open are passed over.
    pub open spec fn changes(
        self,
        rows: Seq<EntryModel>,
        texts: Seq<(BufferId, Vec<u16>)>,
        after: WorkTreeModel,
    ) -> bool {
        &&& after == (WorkTreeModel { rows, buffers: after.buffers, ..self })
        &&& after.buffers.dom() == self.buffers.dom()
        &&& forall|id: BufferId| #[trigger]
            self.buffers.dom().contains(id) ==> after.buffers[id]@ == retold(
                self.buffers[id]@,
                texts,
            )
        &&& forall|id: BufferId| #[trigger]
            self.buffers.dom().contains(id) && !is_retold(texts, id) ==> after.buffers[id]
                == self.buffers[id]
    }

    /// Whether a tree is what comes of a change, which is to be told.
    pub open spec fn takes_in(self, change: AppliedChange, after: WorkTreeModel) -> bool {
        self.telling(seq![change.envelope@]).changes(
            entry_models(change.rows@),
            change.texts@,
            after,
        )
    }

    /// The entries that are shown of the tree.
    pub open spec fn shown(self) -> Seq<EntryModel> {
        listed(self.rows, 0, None, false)
    }

    /// Whether the shown entries amount to a tree.
    pub open spec fn fits_a_tree(self) -> bool {
        fits_a_tree(self.shown())
    }
}

impl View for WorkTree {
    type V = WorkTreeModel;

    closed spec fn view(&self) -> WorkTreeModel {
        WorkTreeModel {
            head: self.head,
            rows: entry_models(self.rows@),
            buffers: self.buffers@,
            handles: self.handles@,
            outgoing: network::envelope_models(self.outgoing@),
        }
    }
}

impl WorkTree {
    /// Every buffer is well-formed and stands under its own number, and no two handles
    /// stand for one buffer.
    pub open spec fn wf(&self) -> bool {
        &&& forall|id: BufferId| #[trigger]
            self@.buffers.dom().contains(id) ==> self@.buffers[id].wf() && self@.buffers[id]@.id
                == id
        &&& distinct_handles(self@.handles)
    }

    /// Whether each handle turned out to be held by somebody, or by nobody.
    pub closed spec fn handles_answered(&self, answers: Seq<Option<Rc<BufferHandle>>>) -> bool {
        self.handles.all_answered(answers)
    }

    /// Whether a handle for a buffer was handed out.
    pub open spec fn hands_out(
        &self,
        buffer_id: BufferId,
        handle: Rc<BufferHandle>,
        after: WorkTreeModel,
    ) -> bool {
        exists|answers: Seq<Option<Rc<BufferHandle>>>|
            {
                &&& #[trigger] self.handles_answered(answers)
                &&& weak_set::answers_fit(self@.handles, answers)
                &&& handed_out(self@.handles, answers, buffer_id, handle, after.handles)
            }
    }

    /// A tree lists no more entries than can be counted.
    pub proof fn lemma_len(&self)
        ensures
            self@.rows.len() <= usize::MAX,
    {
        assert(self.rows@.len() == self.rows.len());
    }

    /// A tree that was just started, based on a commit, with operations to tell.
    pub fn from_started(base: Option<Oid>, begun: StartedTree) -> (tree: WorkTree)
        ensures
            tree.wf(),
            tree@ == started(base, begun),
    {
        WorkTree {
            head: base,
            rows: begun.rows,
            buffers: HashMap::new(),
            handles: WeakSet::new(),
            outgoing: begun.operations,
        }
    }

    /// A tree that was started in a given way, from what was told so far, with operations
    /// to tell. Where what was told could not be fetched, no tree is started.
    pub fn from_fetched<F>(
        base: Option<Oid>,
        fetched: Result<Vec<Operation>, Error>,
        start: F,
    ) -> (result: Result<WorkTree, Error>) where
        F: FnOnce(Vec<Operation>) -> Result<StartedTree, Error>,

        requires
            fetched matches Ok(operations) ==> start.requires((operations,)),
        ensures
            match fetched {
                Ok(operations) => exists|begun: Result<StartedTree, Error>|
                    {
                        &&& #[trigger] start.ensures((operations,), begun)
                        &&& match begun {
                            Ok(begun) => result matches Ok(tree) && tree.wf() && tree@ == started(
                                base,
                                begun,
                            ),
                            Err(error) => result matches Err(reason) && reason == error,
                        }
                    },
                Err(error) => result matches Err(reason) && reason == error,
            },
    {
        match fetched {
            Ok(operations) => match start(operations) {
                Ok(begun) => Ok(WorkTree::from_started(base, begun)),
                Err(error) => Err(error),
            },
            Err(error) => Err(error),
        }
    }

    /// Starts a tree based on a commit in a given way, from what was told so far, and
    /// tells what comes of it. The tree comes with what is told from then on, its own
    /// operations among them. Where what was told cannot be fetched or the tree cannot be
    /// started, nothing is told.
    pub fn new<P, F>(base: Option<Oid>, network: &mut P, start: F) -> (result: Result<
        (WorkTree, UnboundedReceiver<Operation>),
        Error,
    >) where P: NetworkProvider, F: FnOnce(Vec<Operation>) -> Result<StartedTree, Error>
        requires
            forall|operations: Vec<Operation>|
                network::operation_models(operations@) == network::operations_in(
                    old(network).log(),
                ) ==> #[trigger] start.requires((operations,)),
        ensures
            exists|fetched: Result<Vec<Operation>, Error>|
                {
                    &&& #[trigger] call_ensures(P::fetch, (&*old(network),), fetched)
                    &&& match fetched {
                        Ok(operations) => {
                            &&& network::operation_models(operations@) == network::operations_in(
                                old(network).log(),
                            )
                            &&& exists|begun: Result<StartedTree, Error>|
                                {
                                    &&& #[trigger] start.ensures((operations,), begun)
                                    &&& match begun {
                                        Ok(begun) => {
                                            &&& result matches Ok((tree, updates))
                                            &&& tree.wf()
                                            &&& tree@ == (WorkTreeModel {
                                                outgoing: Seq::empty(),
                                                ..started(base, begun)
                                            })
                                            &&& subscribed_and_told(
                                                *old(network),
                                                updates,
                                                network::envelope_models(begun.operations@),
                                                *final(network),
                                            )
                                        },
                                        Err(error) => result matches Err(reason) && reason
                                            == error && *final(network) == *old(network),
                                    }
                                }
                        },
                        Err(error) => result matches Err(reason) && reason == error
                            && *final(network) == *old(network),
                    }
                },
    {
        let fetched = network.fetch();
        let ghost answer = fetched;
        assert(call_ensures(P::fetch, (&*old(network),), answer));
        match WorkTree::from_fetched(base, fetched, start) {
            Ok(tree) => {
                let mut tree = tree;
                let updates = network.updates();
                let ghost middle = *network;
                let ghost outgoing = tree@.outgoing;
                let _ = tree.flush(network);
                assert(told(middle, outgoing, *network));
                Ok((tree, updates))
            },
            Err(error) => Err(error),
        }
    }

    /// Passes on what is yet to be told. What cannot be passed on is dropped.
    pub fn flush<P: NetworkProvider>(&mut self, network: &mut P) -> (result: Result<(), Error>)
        ensures
            told(*old(network), old(self)@.outgoing, *final(network)),
            (result is Err) == (final(network).failures() != old(network).failures()),
            final(network).subscribers() == old(network).subscribers(),
            final(self)@ == (WorkTreeModel { outgoing: Seq::empty(), ..old(self)@ }),
            old(self).wf() ==> final(self).wf(),
    {
        let outgoing = self.take_outgoing();
        network.broadcast(outgoing)
    }

    /// The commit that the tree is based on.
    pub fn head(&self) -> (head: Option<Oid>)
        ensures
            head == self@.head,
    {
        self.head
    }

    /// Tells operations.
    fn broadcast(&mut self, envelopes: Vec<OperationEnvelope>)
        ensures
            final(self)@ == old(self)@.telling(network::envelope_models(envelopes@)),
            old(self).wf() ==> final(self).wf(),
    {
        let mut envelopes = envelopes;
        let ghost told = envelopes@;
        self.outgoing.append(&mut envelopes);
        assert(self@.outgoing =~= old(self)@.outgoing + network::envelope_models(told));
    }

    /// Takes in the texts that open buffers have now, one by one. Those of buffers that
    /// are not open are passed over.
    fn take_texts(&mut self, texts: Vec<(BufferId, Vec<u16>)>)
        requires
            old(self).wf(),
            texts_fit(texts@),
        ensures
            old(self)@.changes(old(self)@.rows, texts@, final(self)@),
            final(self).wf(),
    {
        broadcast use vstd::std_specs::hash::group_hash_axioms;

        let ghost all = texts@;
        let ghost mut count: int = 0;
        let mut rest = texts;
        assert(all.take(0) =~= Seq::empty());
        assert(rest@ =~= all.skip(0));
        while rest.len() > 0
            invariant
                0 <= count <= all.len(),
                rest@ == all.skip(count),
                texts_fit(all),
                old(self).wf(),
                self.wf(),
                old(self)@.changes(old(self)@.rows, all.take(count), self@),
            decreases rest@.len(),
        {
            let ghost before = self@;
            let ghost left = rest@;
            let (buffer_id, text) = rest.remove(0);
            proof {
                assert(left[0] == all[count]);
                assert(rest@ =~= all.skip(count + 1));
                assert(all.take(count + 1).drop_last() =~= all.take(count));
                assert(before.buffers.dom() == old(self)@.buffers.dom());
            }
            match self.buffers.entry(buffer_id) {
                hash_map::Entry::Occupied(entry) => {
                    assert(before.buffers.dom().contains(buffer_id));
                    let buffer = entry.into_mut();
                    buffer.reset_text(text);
                },
                hash_map::Entry::Vacant(_) => {},
            }
            proof {
                count = count + 1;
                assert(self@.buffers.dom() =~= before.buffers.dom());
                assert(self@ == (WorkTreeModel { buffers: self@.buffers, ..before }));
                assert forall|id: BufferId| #[trigger]
                    old(self)@.buffers.dom().contains(id) implies self@.buffers[id]@ == retold(
                    old(self)@.buffers[id]@,
                    all.take(count),
                ) && self@.buffers[id].wf() && self@.buffers[id]@.id == id by {
                    assert(before.buffers.dom().contains(id));
                    assert(all.take(count).last() == all[count - 1]);
                }
                assert forall|id: BufferId| #[trigger]
                    old(self)@.buffers.dom().contains(id) && !is_retold(
                        all.take(count),
                        id,
                    ) implies self@.buffers[id] == old(self)@.buffers[id] by {
                    assert(all.take(count)[count - 1].0 != id);
                    assert forall|i: int| 0 <= i < count - 1 implies (#[trigger] all.take(
                        count - 1,
                    )[i]).0 != id by {
                        assert(all.take(count)[i].0 != id);
                    }
                    assert(!is_retold(all.take(count - 1), id));
                }
            }
        }
        assert(all.take(count) =~= all);
    }

    /// Takes in a change, where it was made, and tells the operation that came of it.
    fn take_in(&mut self, change: Result<AppliedChange, MemoError>) -> (result: Result<(), Error>)
        requires
            old(self).wf(),
            change matches Ok(change) ==> texts_fit(change.texts@),
        ensures
            match change {
                Ok(change) => result == Ok::<(), Error>(()) && old(self)@.takes_in(
                    change,
                    final(self)@,
                ),
                Err(error) => result == Err::<(), Error>(Error::Memo(error)) && final(self)@
                    == old(self)@,
            },
            final(self).wf(),
    {
        match change {
            Ok(change) => {
                let mut envelopes: Vec<OperationEnvelope> = Vec::new();
                envelopes.push(change.envelope);
                assert(network::envelope_models(envelopes@) =~= seq![change.envelope@]);
                self.broadcast(envelopes);
                self.refresh(change.rows);
                self.take_texts(change.texts);
                Ok(())
            },
            Err(error) => Err(Error::from(error)),
        }
    }

    /// Takes in what came of the request to create a file.
    pub fn create_file(&mut self, change: Result<AppliedChange, MemoError>) -> (result: Result<(), Error>)
        requires
            old(self).wf(),
            change matches Ok(change) ==> texts_fit(change.texts@),
        ensures
            match change {
                Ok(change) => result == Ok::<(), Error>(()) && old(self)@.takes_in(
                    change,
                    final(self)@,
                ),
                Err(error) => result == Err::<(), Error>(Error::Memo(error)) && final(self)@
                    == old(self)@,
            },
            final(self).wf(),
    {
        self.take_in(change)
    }

    /// Takes in what came of the request to rename a file.
    pub fn rename(&mut self, change: Result<AppliedChange, MemoError>) -> (result: Result<(), Error>)
        requires
            old(self).wf(),
            change matches Ok(change) ==> texts_fit(change.texts@),
        ensures
            match change {
                Ok(change) => result == Ok::<(), Error>(()) && old(self)@.takes_in(
                    change,
                    final(self)@,
                ),
                Err(error) => result == Err::<(), Error>(Error::Memo(error)) && final(self)@
                    == old(self)@,
            },
            final(self).wf(),
    {
        self.take_in(change)
    }

    /// Takes in what came of the request to remove a file.
    pub fn remove(&mut self, change: Result<AppliedChange, MemoError>) -> (result: Result<(), Error>)
        requires
            old(self).wf(),
            change matches Ok(change) ==> texts_fit(change.texts@),
        ensures
            match change {
                Ok(change) => result == Ok::<(), Error>(()) && old(self)@.takes_in(
                    change,
                    final(self)@,
                ),
                Err(error) => result == Err::<(), Error>(Error::Memo(error)) && final(self)@
                    == old(self)@,
            },
            final(self).wf(),
    {
        self.take_in(change)
    }

    /// Takes in what came of it that the replica looks at another file.
    pub fn set_active_location(&mut self, change: Result<OperationEnvelope, MemoError>) -> (result:
        Result<(), Error>)
        ensures
            match change {
                Ok(envelope) => result == Ok::<(), Error>(()) && final(self)@
                    == old(self)@.telling(seq![envelope@]),
                Err(error) => result == Err::<(), Error>(Error::Memo(error)) && final(self)@
                    == old(self)@,
            },
            old(self).wf() ==> final(self).wf(),
    {
        match change {
            Ok(envelope) => {
                let mut envelopes: Vec<OperationEnvelope> = Vec::new();
                envelopes.push(envelope);
                assert(network::envelope_models(envelopes@) =~= seq![envelope@]);
                self.broadcast(envelopes);
                Ok(())
            },
            Err(error) => Err(Error::from(error)),
        }
    }

    /// Takes in that the tree is based on another commit now, with the listing and the
    /// texts of open buffers that came of it, and tells the operations that came of it.
    pub fn reset(
        &mut self,
        head: Option<Oid>,
        rows: Vec<Entry>,
        texts: Vec<(BufferId, Vec<u16>)>,
        envelopes: Vec<OperationEnvelope>,
    )
        requires
            old(self).wf(),
            texts_fit(texts@),
        ensures
            (WorkTreeModel { head, ..old(self)@ }).telling(
                network::envelope_models(envelopes@),
            ).changes(entry_models(rows@), texts@, final(self)@),
            final(self).wf(),
    {
        self.head = head;
        self.apply_ops(rows, texts, envelopes);
    }

    /// Takes in the listing and the texts of open buffers that came of the operations of
    /// other replicas, and tells the operations that came of them.
    pub fn apply_ops(
        &mut self,
        rows: Vec<Entry>,
        texts: Vec<(BufferId, Vec<u16>)>,
        envelopes: Vec<OperationEnvelope>,
    )
        requires
            old(self).wf(),
            texts_fit(texts@),
        ensures
            old(self)@.telling(network::envelope_models(envelopes@)).changes(
                entry_models(rows@),
                texts@,
                final(self)@,
            ),
            final(self).wf(),
    {
        self.broadcast(envelopes);
        self.refresh(rows);
        self.take_texts(texts);
    }

    /// Hands out the operations that are to be told, in order.
    pub fn take_outgoing(&mut self) -> (outgoing: Vec<OperationEnvelope>)
        ensures
            network::envelope_models(outgoing@) == old(self)@.outgoing,
            final(self)@ == (WorkTreeModel { outgoing: Seq::empty(), ..old(self)@ }),
            old(self).wf() ==> final(self).wf(),
    {
        let mut outgoing: Vec<OperationEnvelope> = Vec::new();
        outgoing.append(&mut self.outgoing);
        assert(network::envelope_models(outgoing@) =~= old(self)@.outgoing);
        assert(self@.outgoing =~= Seq::empty());
        outgoing
    }

    /// Takes in the listing of the tree as it is now.
    pub fn refresh(&mut self, rows: Vec<Entry>)
        ensures
            final(self)@ == (WorkTreeModel { rows: entry_models(rows@), ..old(self)@ }),
            old(self).wf() ==> final(self).wf(),
    {
        self.rows = rows;
    }

    /// Whether there is a file or directory at a path that is not removed.
    pub fn path_exists(&self, path: &String) -> (found: bool)
        ensures
            found <==> exists|i: int|
                0 <= i < self@.rows.len() && (#[trigger] self@.rows[i]).path == path@
                    && self@.rows[i].status != FileStatus::Removed,
    {
        let mut i: usize = 0;
        while i < self.rows.len()
            invariant
                i <= self.rows@.len(),
                forall|j: int|
                    0 <= j < i ==> (#[trigger] self@.rows[j]).path != path@ || self@.rows[j].status
                        == FileStatus::Removed,
            decreases self.rows@.len() - i,
        {
            let row = &self.rows[i];
            assert(self@.rows[i as int] == row@);
            if row.status != FileStatus::Removed && row.path == *path {
                return true;
            }
            i += 1;
        }
        false
    }

    /// How many entries the tree lists.
    pub fn len(&self) -> (len: usize)
        ensures
            len == self@.rows.len(),
    {
        self.rows.len()
    }

    /// The entries of the tree that are to be shown: all of them, or those in given
    /// directories.
    pub fn entries(&self, descend_into: &Option<Vec<String>>, show_deleted: Option<bool>) -> (entries:
        Vec<Entry>)
        ensures
            entry_models(entries@) == listed(
                self@.rows,
                0,
                path_models(*descend_into),
                show_deleted == Some(true),
            ),
    {
        list_entries(&self.rows, descend_into, show_deleted)
    }

    /// The tree as a directory, with entries numbered from a given number on.
    pub fn root(&self, first_id: fs::EntryId) -> (root: fs::Entry)
        requires
            first_id + self@.rows.len() < u128::MAX,
            self@.fits_a_tree(),
        ensures
            root.id == first_id,
            root.name@ == "/"@,
            !root.symlink,
            !root.ignored,
            root.children matches Some(children) && nodes(children@) == forest(
                self@.shown(),
                0,
                self@.shown().len() as int,
                1,
            ),
            path_search::entry_distinct_ids(root),
            forall|id: fs::EntryId| #[trigger]
                path_search::entry_ids(root).contains(id) ==> first_id <= id <= first_id
                    + self@.rows.len(),
    {
        build_root(&self.rows, first_id)
    }

    /// Opens a file, where the tree has opened it: hands out what stands for its
    /// buffer, which is one and the same for as long as anybody holds it. A buffer
    /// that is there already stays as it is.
    pub fn open_text_file(&mut self, opened: Result<OpenedFile, MemoError>) -> (result: Result<
        Rc<BufferHandle>,
        Error,
    >)
        requires
            old(self).wf(),
            opened matches Ok(file) ==> text::fits(file.text@),
        ensures
            match opened {
                Ok(file) => {
                    &&& result matches Ok(handle)
                    &&& handle.id == file.buffer_id
                    &&& old(self).hands_out(file.buffer_id, handle, final(self)@)
                    &&& old(self)@.opens(file, final(self)@)
                },
                Err(error) => final(self)@ == old(self)@ && result == Err::<Rc<BufferHandle>, Error>(
                    Error::Memo(error),
                ),
            },
            final(self).wf(),
    {
        broadcast use vstd::std_specs::hash::group_hash_axioms;

        let file = match opened {
            Ok(file) => file,
            Err(error) => {
                return Err(Error::from(error));
            },
        };
        let buffer_id: BufferId = file.buffer_id;
        if !self.buffers.contains_key(&buffer_id) {
            self.buffers.insert(buffer_id, Buffer::new(buffer_id, file.text));
        }
        let is_meant = |handle: Rc<BufferHandle>| -> (is_meant: bool)
            ensures
                is_meant == (handle.id == buffer_id),
            { handle.id == buffer_id };
        let found = self.handles.find(&is_meant);
        let ghost (answers, matches) = choose|
            answers: Seq<Option<Rc<BufferHandle>>>,
            matches: Seq<bool>,
        |
            {
                &&& old(self).handles.all_answered(answers)
                &&& self.handles@ == weak_set::kept(old(self).handles@, answers)
                &&& weak_set::compared(is_meant, answers, matches)
                &&& found == #[trigger] weak_set::last_match(
                    answers,
                    matches,
                    answers.len() as int,
                )
            };
        proof {
            assert forall|i: int| #[trigger] stands_for(answers, i, buffer_id) implies found
                is Some by {
                weak_set::law_held_members_stay(old(self)@.handles, answers, matches, i);
            }
            if found is Some {
                let index = weak_set::law_found_is_held_and_matches(
                    answers,
                    matches,
                    answers.len() as int,
                );
                assert(stands_for(answers, index, buffer_id));
            }
        }
        let handle = match found {
            Some(handle) => handle,
            None => self.handles.insert(BufferHandle { id: buffer_id }),
        };
        proof {
            assert(old(self).handles_answered(answers));
            lemma_handed_out(old(self)@.handles, answers, buffer_id, handle, self@.handles);
        }
        Ok(handle)
    }

    /// An open buffer.
    pub fn buffer(&self, buffer_id: BufferId) -> (buffer: Option<&Buffer>)
        ensures
            buffer == (if self@.buffers.contains_key(buffer_id) {
                Some(&self@.buffers[buffer_id])
            } else {
                None
            }),
    {
        broadcast use vstd::std_specs::hash::group_hash_axioms;

        self.buffers.get(&buffer_id)
    }

    /// An open buffer, to be changed in place.
    pub fn buffer_mut(&mut self, buffer_id: BufferId) -> (buffer: Option<&mut Buffer>)
        ensures
            match buffer {
                Some(buffer) => old(self)@.buffers.contains_key(buffer_id) && *buffer
                    == old(self)@.buffers[buffer_id] && final(self)@ == (WorkTreeModel {
                    buffers: old(self)@.buffers.insert(buffer_id, *final(buffer)),
                    ..old(self)@
                }),
                None => !old(self)@.buffers.contains_key(buffer_id) && final(self)@ == old(self)@,
            },
    {
        broadcast use vstd::std_specs::hash::group_hash_axioms;

        match self.buffers.entry(buffer_id) {
            hash_map::Entry::Occupied(entry) => Some(entry.into_mut()),
            hash_map::Entry::Vacant(_) => None,
        }
    }
}

/// When a change is taken in, the operation that came of it is to be told after all
/// others, the listing is the one that came of it, and an open buffer has the last text
/// that came of it for that buffer, or its own where none did. No buffer is opened or
/// closed.
pub proof fn law_change_is_taken_in(
    tree: WorkTreeModel,
    change: AppliedChange,
    after: WorkTreeModel,
    id: BufferId,
    index: int,
)
    requires
        tree.takes_in(change, after),
        tree.buffers.contains_key(id),
        tree.buffers[id]@.id == id,
    ensures
        after.outgoing == tree.outgoing.push(change.envelope@),
        after.rows.len() == change.rows@.len(),
        forall|i: int| 0 <= i < change.rows@.len() ==> #[trigger] after.rows[i] == change.rows@[i]@,
        after.head == tree.head,
        after.handles == tree.handles,
        after.buffers.dom() == tree.buffers.dom(),
        0 <= index < change.texts@.len() && change.texts@[index].0 == id && (forall|j: int|
            index < j < change.texts@.len() ==> (#[trigger] change.texts@[j]).0 != id)
            ==> after.buffers[id]@.text == change.texts@[index].1@,
        (forall|j: int| 0 <= j < change.texts@.len() ==> (#[trigger] change.texts@[j]).0 != id)
            ==> after.buffers[id] == tree.buffers[id],
{
    assert(after.outgoing =~= tree.outgoing.push(change.envelope@));
    assert(tree.buffers.dom().contains(id));
    if 0 <= index < change.texts@.len() && change.texts@[index].0 == id && (forall|j: int|
        index < j < change.texts@.len() ==> (#[trigger] change.texts@[j]).0 != id) {
        law_last_text_stands(tree.buffers[id]@, change.texts@, index);
    }
}

/// A file that is opened for the first time has a buffer with just its text and with no
/// selections; one that is open keeps its buffer as it is. All other buffers, the listing
/// and what is to be told stay as they are.
pub proof fn law_opened_file_has_its_text(
    tree: WorkTreeModel,
    file: OpenedFile,
    after: WorkTreeModel,
    other: BufferId,
)
    requires
        tree.opens(file, after),
        other != file.buffer_id,
    ensures
        after.buffers.contains_key(file.buffer_id),
        tree.buffers.contains_key(file.buffer_id) ==> after.buffers[file.buffer_id]
            == tree.buffers[file.buffer_id],
        !tree.buffers.contains_key(file.buffer_id) ==> {
            let buffer = after.buffers[file.buffer_id]@;
            &&& buffer.text == file.text@
            &&& buffer.id == file.buffer_id
            &&& buffer.local.dom() == Set::<u64>::empty()
            &&& buffer.remote.len() == 0
            &&& buffer.outgoing.len() == 0
        },
        after.buffers.contains_key(other) == tree.buffers.contains_key(other),
        tree.buffers.contains_key(other) ==> after.buffers[other] == tree.buffers[other],
        after.rows == tree.rows,
        after.head == tree.head,
        after.outgoing == tree.outgoing,
{
    if !tree.buffers.contains_key(file.buffer_id) {
        assert(after.buffers[file.buffer_id]@.local.dom() =~= Set::<u64>::empty());
    }
}

/// A tree that is started is based on its commit, lists what it started with, has nothing
/// open, and is to tell the operations that it started with, in order.
pub proof fn law_tree_is_started(base: Option<Oid>, begun: StartedTree, index: int)
    ensures
        started(base, begun).head == base,
        started(base, begun).rows.len() == begun.rows@.len(),
        0 <= index < begun.rows@.len() ==> started(base, begun).rows[index] == begun.rows@[index]@,
        started(base, begun).outgoing.len() == begun.operations@.len(),
        0 <= index < begun.operations@.len() ==> started(base, begun).outgoing[index]
            == begun.operations@[index]@,
        started(base, begun).buffers.dom() == Set::<BufferId>::empty(),
        started(base, begun).handles.len() == 0,
{
    assert(started(base, begun).buffers.dom() =~= Set::<BufferId>::empty());
}

/// What is told without a failure is all on record, after what was told before, in
/// order.
pub proof fn law_told_is_on_record<P: NetworkProvider>(
    before: P,
    envelopes: Seq<EnvelopeModel>,
    after: P,
    index: int,
)
    requires
        told(before, envelopes, after),
        after.failures() == before.failures(),
        0 <= index < envelopes.len(),
    ensures
        after.log().len() == before.log().len() + envelopes.len(),
        after.log().take(before.log().len() as int) == before.log(),
        after.log()[before.log().len() + index] == envelopes[index],
{
    assert(after.log().take(before.log().len() as int) =~= before.log());
}

/// The directories that are asked for are just the given ones.
pub proof fn law_paths_are_asked_for(paths: Vec<String>, index: int)
    requires
        0 <= index < paths@.len(),
    ensures
        path_models(Some(paths)) matches Some(asked) && asked.len() == paths@.len() && asked[index]
            == paths@[index]@,
        path_models(None) is None,
{
}

/// An entry as a mathematical value is what the entry is, with what is in it, in order.
pub proof fn law_node(entry: fs::Entry, index: int)
    ensures
        node(entry).name == entry.name@,
        node(entry).symlink == entry.symlink,
        node(entry).ignored == entry.ignored,
        node(entry).children is Some <==> entry.children is Some,
        entry.children is Some ==> node(entry).children->0.len() == entry.children->0@.len(),
        entry.children is Some && 0 <= index < entry.children->0@.len() ==> node(
            entry,
        ).children->0[index] == node(entry.children->0@[index]),
{
    if entry.children is Some {
        lemma_nodes(entry.children->0@);
    }
}

/// A listed entry as a mathematical value says all that the entry does, and entries of a
/// list keep their places.
pub proof fn law_listed_entry_as_value(entries: Seq<Entry>, index: int)
    requires
        0 <= index < entries.len(),
    ensures
        entry_models(entries).len() == entries.len(),
        ({
            let model = entry_models(entries)[index];
            let entry = entries[index];
            &&& model.file_type == entry.file_type
            &&& model.depth == entry.depth
            &&& model.name == entry.name@
            &&& model.path == entry.path@
            &&& model.base_path is Some <==> entry.base_path is Some
            &&& entry.base_path matches Some(path) ==> model.base_path == Some(path@)
            &&& model.status == entry.status
            &&& model.visible == entry.visible
        }),
{
}

/// Who starts a tree gets to see what is told from then on, beside all who did before; and
/// without a failure, what the tree starts with is on record after all that was told
/// before.
pub proof fn law_starting_is_told<P: NetworkProvider>(
    before: P,
    updates: UnboundedReceiver<Operation>,
    envelopes: Seq<EnvelopeModel>,
    after: P,
)
    requires
        subscribed_and_told(before, updates, envelopes, after),
    ensures
        exists|tx: UnboundedSender<Operation>| #[trigger]
            network::are_ends(tx, updates) && after.subscribers() == before.subscribers().push(tx),
        after.failures() == before.failures() ==> after.log() == before.log() + envelopes,
        after.failures() == before.failures() || after.failures() == before.failures() + 1,
{
}

/// A handle that is handed out stands for its buffer and is known from then on; where
/// nobody held one for that buffer, it is new.
pub proof fn law_handle_stands_for_its_buffer(
    before: Seq<BufferHandle>,
    answers: Seq<Option<Rc<BufferHandle>>>,
    buffer_id: BufferId,
    handle: Rc<BufferHandle>,
    after: Seq<BufferHandle>,
)
    requires
        distinct_handles(before),
        weak_set::answers_fit(before, answers),
        handed_out(before, answers, buffer_id, handle, after),
    ensures
        handle.id == buffer_id,
        exists|i: int| 0 <= i < after.len() && (#[trigger] after[i]).id == buffer_id,
        forall|i: int, j: int|
            0 <= i < j < after.len() ==> (#[trigger] after[i]).id != (#[trigger] after[j]).id,
        (forall|i: int|
            0 <= i < before.len() && (#[trigger] before[i]).id == buffer_id ==> answers[i] is None)
            ==> after == weak_set::kept(before, answers).push(*handle),
{
    lemma_handed_out(before, answers, buffer_id, handle, after);
    if exists|i: int| #[trigger] stands_for(answers, i, buffer_id) {
        let i = choose|i: int| #[trigger]
            stands_for(answers, i, buffer_id) && answers[i] == Some(handle);
        assert(before[i].id == buffer_id);
        weak_set::law_held_members_stay(
            before,
            answers,
            Seq::new(before.len(), |k: int| false),
            i,
        );
        let kept = weak_set::kept(before, answers);
        let k = choose|k: int| 0 <= k < kept.len() && kept[k] == before[i];
        assert(after[k].id == buffer_id);
    } else {
        assert(after[after.len() - 1].id == buffer_id);
    }
}

/// When operations of others are taken in, all operations that came of them are to be
/// told after all others, in order; the listing is the one that came of them; and an open
/// buffer has the last text that came of them for that buffer, or its own where none did.
pub proof fn law_operations_are_taken_in(
    tree: WorkTreeModel,
    envelopes: Seq<EnvelopeModel>,
    rows: Seq<EntryModel>,
    texts: Seq<(BufferId, Vec<u16>)>,
    after: WorkTreeModel,
    id: BufferId,
    index: int,
)
    requires
        tree.telling(envelopes).changes(rows, texts, after),
        tree.buffers.contains_key(id),
        tree.buffers[id]@.id == id,
    ensures
        after.outgoing.len() == tree.outgoing.len() + envelopes.len(),
        after.outgoing.take(tree.outgoing.len() as int) == tree.outgoing,
        after.outgoing.skip(tree.outgoing.len() as int) == envelopes,
        after.rows == rows,
        after.head == tree.head,
        after.handles == tree.handles,
        after.buffers.dom() == tree.buffers.dom(),
        0 <= index < texts.len() && texts[index].0 == id && (forall|j: int|
            index < j < texts.len() ==> (#[trigger] texts[j]).0 != id) ==> after.buffers[id]@.text
            == texts[index].1@,
        (forall|j: int| 0 <= j < texts.len() ==> (#[trigger] texts[j]).0 != id)
            ==> after.buffers[id] == tree.buffers[id],
{
    assert(after.outgoing.take(tree.outgoing.len() as int) =~= tree.outgoing);
    assert(after.outgoing.skip(tree.outgoing.len() as int) =~= envelopes);
    assert(tree.buffers.dom().contains(id));
    if 0 <= index < texts.len() && texts[index].0 == id && (forall|j: int|
        index < j < texts.len() ==> (#[trigger] texts[j]).0 != id) {
        law_last_text_stands(tree.buffers[id]@, texts, index);
    }
}

} // verus!
