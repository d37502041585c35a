//! The files of a commit.

use vstd::prelude::*;

use crate::fs::{DirEntry, DirEntryModel, FileType};
use crate::work_tree::{self, EntryModel, Node};

verus! {

/// What stands under a name in a commit: a file, or a directory with what is in it.
pub enum GitObject {
    Blob,
    Tree(Vec<GitEntry>),
}

pub struct GitEntry {
    pub name: String,
    pub object: GitObject,
}

/// The listing of what is in a directory at some depth: each directory is followed
/// by what is in it.
pub open spec fn visited(entries: Seq<GitEntry>, depth: int) -> Seq<DirEntryModel>
    decreases entries,
{
    if entries.len() == 0 {
        Seq::empty()
    } else {
        visited(entries.drop_last(), depth) + visited_entry(entries.last(), depth)
    }
}

pub open spec fn visited_entry(entry: GitEntry, depth: int) -> Seq<DirEntryModel>
    decreases entry,
{
    match entry.object {
        GitObject::Blob => seq![
            DirEntryModel {
                depth: depth as usize,
                name: entry.name@,
                file_type: FileType::Text,
            },
        ],
        GitObject::Tree(entries) => seq![
            DirEntryModel {
                depth: depth as usize,
                name: entry.name@,
                file_type: FileType::Directory,
            },
        ] + visited(entries@, depth + 1),
    }
}

/// Whether the depth of each entry can be told.
pub open spec fn depths_fit(entries: Seq<GitEntry>, depth: int) -> bool
    decreases entries,
{
    entries.len() > 0 ==> {
        &&& depths_fit(entries.drop_last(), depth)
        &&& depth <= usize::MAX
        &&& entry_depths_fit(entries.last(), depth)
    }
}

pub open spec fn entry_depths_fit(entry: GitEntry, depth: int) -> bool
    decreases entry,
{
    match entry.object {
        GitObject::Blob => true,
        GitObject::Tree(entries) => depth < usize::MAX && depths_fit(entries@, depth + 1),
    }
}

pub open spec fn dir_entry_models(entries: Seq<DirEntry>) -> Seq<DirEntryModel> {
    entries.map_values(|entry: DirEntry| entry@)
}

proof fn lemma_depths_fit(entries: Seq<GitEntry>, depth: int, index: int)
    requires
        depths_fit(entries, depth),
        0 <= index < entries.len(),
    ensures
        entry_depths_fit(entries[index], depth),
    decreases entries.len(),
{
    if index < entries.len() - 1 {
        lemma_depths_fit(entries.drop_last(), depth, index);
    }
}

/// Lists what is in a directory at some depth.
pub fn visit_dirs(entries: &Vec<GitEntry>, depth: usize) -> (listing: Vec<DirEntry>)
    requires
        depths_fit(entries@, depth as int),
    ensures
        dir_entry_models(listing@) == visited(entries@, depth as int),
    decreases entries,
{
    let mut listing: Vec<DirEntry> = Vec::new();
    let mut i: usize = 0;
    proof {
        assert(entries@.take(0) =~= Seq::empty());
        assert(dir_entry_models(listing@) =~= Seq::empty());
    }
    while i < entries.len()
        invariant
            i <= entries@.len(),
            depths_fit(entries@, depth as int),
            dir_entry_models(listing@) == visited(entries@.take(i as int), depth as int),
        decreases entries@.len() - i,
    {
        let entry = &entries[i];
        let ghost before = dir_entry_models(listing@);
        proof {
            lemma_depths_fit(entries@, depth as int, i as int);
            assert(entries@.take(i + 1).drop_last() =~= entries@.take(i as int));
            assert(entries@.take(i + 1).last() == *entry);
        }
        match &entry.object {
            GitObject::Blob => {
                listing.push(
                    DirEntry { depth, name: entry.name.clone(), file_type: FileType::Text },
                );
            },
            GitObject::Tree(children) => {
                listing.push(
                    DirEntry { depth, name: entry.name.clone(), file_type: FileType::Directory },
                );
                assert(decreases_to!(entries@ => entries@[i as int]));
                let mut below = visit_dirs(children, depth + 1);
                let ghost inner = below@;
                let ghost so_far = listing@;
                listing.append(&mut below);
                assert(dir_entry_models(listing@) =~= dir_entry_models(so_far) + dir_entry_models(
                    inner,
                ));
            },
        }
        proof {
            assert(dir_entry_models(listing@) =~= before + visited_entry(*entry, depth as int));
        }
        i += 1;
    }
    assert(entries@.take(i as int) =~= entries@);
    listing
}

/// What is in a directory of a commit, as a tree that is based on it shows it.
pub open spec fn nodes(entries: Seq<GitEntry>) -> Seq<Node>
    decreases entries,
{
    if entries.len() == 0 {
        Seq::empty()
    } else {
        nodes(entries.drop_last()).push(node(entries.last()))
    }
}

pub open spec fn node(entry: GitEntry) -> Node
    decreases entry,
{
    Node {
        name: entry.name@,
        symlink: false,
        ignored: false,
        children: match entry.object {
            GitObject::Blob => None,
            GitObject::Tree(entries) => Some(nodes(entries@)),
        },
    }
}

/// Whether the entries of a tree, from one of them on, are those of a listing, all of
/// them visible.
pub open spec fn shows(rows: Seq<EntryModel>, from: int, listing: Seq<DirEntryModel>) -> bool {
    &&& 0 <= from
    &&& from + listing.len() <= rows.len()
    &&& forall|i: int|
        0 <= i < listing.len() ==> {
            let row = rows[from + i];
            &&& row.depth == (#[trigger] listing[i]).depth
            &&& row.name == listing[i].name
            &&& row.file_type == listing[i].file_type
            &&& row.visible
        }
}

/// What is in a directory is listed at its depth or deeper.
proof fn lemma_visited_depth(entries: Seq<GitEntry>, depth: int)
    requires
        depths_fit(entries, depth),
        0 <= depth,
    ensures
        forall|i: int|
            0 <= i < visited(entries, depth).len() ==> (#[trigger] visited(entries, depth)[i]).depth
                >= depth,
    decreases entries,
{
    if entries.len() > 0 {
        lemma_visited_depth(entries.drop_last(), depth);
        let last = entries.last();
        assert(entry_depths_fit(last, depth));
        assert(visited(entries, depth) == visited(entries.drop_last(), depth) + visited_entry(
            last,
            depth,
        ));
        match last.object {
            GitObject::Blob => {},
            GitObject::Tree(inner) => {
                assert(decreases_to!(entries => entries[entries.len() - 1]));
                lemma_visited_depth(inner@, depth + 1);
            },
        }
    }
}

/// Where a tree shows the listing of a directory, it shows that of all entries but the
/// last, then the last one at the depth of the directory, and then what is in it.
proof fn lemma_shown_parts(entries: Seq<GitEntry>, depth: int, rows: Seq<EntryModel>, from: int)
    requires
        entries.len() > 0,
        depths_fit(entries, depth),
        0 <= depth,
        shows(rows, from, visited(entries, depth)),
    ensures
        ({
            let middle = from + visited(entries.drop_last(), depth).len();
            let end = from + visited(entries, depth).len();
            let last = entries.last();
            &&& visited(entries, depth) == visited(entries.drop_last(), depth) + visited_entry(
                last,
                depth,
            )
            &&& shows(rows, from, visited(entries.drop_last(), depth))
            &&& shows(rows, middle, visited_entry(last, depth))
            &&& rows[middle].depth == depth
            &&& rows[middle].name == last.name@
            &&& rows[middle].visible
            &&& match last.object {
                GitObject::Blob => rows[middle].file_type == FileType::Text,
                GitObject::Tree(inner) => rows[middle].file_type == FileType::Directory && shows(
                    rows,
                    middle + 1,
                    visited(inner@, depth + 1),
                ) && work_tree::up_to(rows.take(end), middle + 1, depth) == end,
            }
        }),
{
    let listing = visited(entries, depth);
    let before = visited(entries.drop_last(), depth);
    let last = visited_entry(entries.last(), depth);
    let middle = from + before.len();
    let end = from + listing.len();
    assert(listing == before + last);
    assert(entry_depths_fit(entries.last(), depth));
    assert(shows(rows, from, before)) by {
        assert forall|i: int| 0 <= i < before.len() implies {
            let row = rows[from + i];
            &&& row.depth == (#[trigger] before[i]).depth
            &&& row.name == before[i].name
            &&& row.file_type == before[i].file_type
            &&& row.visible
        } by {
            assert(listing[i] == before[i]);
        }
    }
    assert(shows(rows, middle, last)) by {
        assert forall|i: int| 0 <= i < last.len() implies {
            let row = rows[middle + i];
            &&& row.depth == (#[trigger] last[i]).depth
            &&& row.name == last[i].name
            &&& row.file_type == last[i].file_type
            &&& row.visible
        } by {
            assert(listing[before.len() + i] == last[i]);
        }
    }
    assert(rows[middle + 0].depth == last[0].depth);
    match entries.last().object {
        GitObject::Blob => {},
        GitObject::Tree(inner) => {
            let below = visited(inner@, depth + 1);
            assert(shows(rows, middle + 1, below)) by {
                assert forall|i: int| 0 <= i < below.len() implies {
                    let row = rows[middle + 1 + i];
                    &&& row.depth == (#[trigger] below[i]).depth
                    &&& row.name == below[i].name
                    &&& row.file_type == below[i].file_type
                    &&& row.visible
                } by {
                    assert(last[i + 1] == below[i]);
                }
            }
            lemma_visited_depth(inner@, depth + 1);
            work_tree::lemma_up_to(rows.take(end), middle + 1, depth);
            let behind = work_tree::up_to(rows.take(end), middle + 1, depth);
            if behind < end {
                assert(below[behind - middle - 1].depth >= depth + 1);
                assert(rows.take(end)[behind].depth <= depth);
            }
        },
    }
}

/// The listing of a directory, where a tree shows it, is shown as what is in that
/// directory.
proof fn lemma_shown(entries: Seq<GitEntry>, depth: int, rows: Seq<EntryModel>, from: int)
    requires
        depths_fit(entries, depth),
        0 <= depth,
        shows(rows, from, visited(entries, depth)),
    ensures
        work_tree::forest(rows, from, from + visited(entries, depth).len(), depth) == nodes(
            entries,
        ),
    decreases entries,
{
    if entries.len() > 0 {
        let middle = from + visited(entries.drop_last(), depth).len();
        let end = from + visited(entries, depth).len();
        lemma_shown_parts(entries, depth, rows, from);
        lemma_shown(entries.drop_last(), depth, rows, from);
        assert(entry_depths_fit(entries.last(), depth));
        work_tree::lemma_forest_splits(rows, from, middle, end, depth);
        match entries.last().object {
            GitObject::Blob => {
                assert(work_tree::forest(rows, middle + 1, end, depth) =~= Seq::empty());
            },
            GitObject::Tree(inner) => {
                assert(decreases_to!(entries => entries[entries.len() - 1]));
                lemma_shown(inner@, depth + 1, rows, middle + 1);
                assert(work_tree::forest(rows, end, end, depth) =~= Seq::empty());
            },
        }
        assert(work_tree::forest(rows, middle, end, depth) =~= seq![node(entries.last())]);
    } else {
        assert(work_tree::forest(rows, from, from, depth) =~= Seq::empty());
    }
}

/// A tree that shows the listing of a commit shows just the files and directories of
/// that commit, each in its place.
pub proof fn law_listing_keeps_structure(entries: Seq<GitEntry>, rows: Seq<EntryModel>)
    requires
        depths_fit(entries, 1),
        rows.len() == visited(entries, 1).len(),
        shows(rows, 0, visited(entries, 1)),
    ensures
        work_tree::forest(rows, 0, rows.len() as int, 1) == nodes(entries),
{
    lemma_shown(entries, 1, rows, 0);
}

/// Whether no two entries of one directory have one name, in a directory and in each
/// below it.
pub open spec fn names_differ(entries: Seq<GitEntry>) -> bool
    decreases entries,
{
    entries.len() > 0 ==> {
        &&& names_differ(entries.drop_last())
        &&& forall|i: int|
            0 <= i < entries.len() - 1 ==> (#[trigger] entries[i]).name@ != entries.last().name@
        &&& entry_names_differ(entries.last())
    }
}

pub open spec fn entry_names_differ(entry: GitEntry) -> bool
    decreases entry,
{
    match entry.object {
        GitObject::Blob => true,
        GitObject::Tree(entries) => names_differ(entries@),
    }
}

proof fn lemma_nodes(entries: Seq<GitEntry>)
    ensures
        nodes(entries).len() == entries.len(),
        forall|i: int|
            0 <= i < entries.len() ==> (#[trigger] nodes(entries)[i]).name == entries[i].name@,
        names_differ(entries) ==> work_tree::distinct_names(nodes(entries)),
    decreases entries.len(),
{
    if entries.len() > 0 {
        lemma_nodes(entries.drop_last());
        assert(node(entries.last()).name == entries.last().name@);
        if names_differ(entries) {
            let all = nodes(entries);
            assert forall|i: int, j: int| 0 <= i < j < all.len() implies all[i].name
                != all[j].name by {
                assert(all[i] == nodes(entries.drop_last())[i]);
                if j < all.len() - 1 {
                    assert(all[j] == nodes(entries.drop_last())[j]);
                } else {
                    assert(entries[i].name@ != entries.last().name@);
                }
            }
        }
    }
}

/// The listing of a directory, where a tree shows it, has no name twice in one
/// directory.
proof fn lemma_shown_names(entries: Seq<GitEntry>, depth: int, rows: Seq<EntryModel>, from: int)
    requires
        depths_fit(entries, depth),
        names_differ(entries),
        0 <= depth,
        shows(rows, from, visited(entries, depth)),
    ensures
        work_tree::names_fit(rows, from, from + visited(entries, depth).len(), depth),
    decreases entries,
{
    if entries.len() > 0 {
        let middle = from + visited(entries.drop_last(), depth).len();
        let end = from + visited(entries, depth).len();
        lemma_shown_parts(entries, depth, rows, from);
        lemma_shown_names(entries.drop_last(), depth, rows, from);
        assert(entry_depths_fit(entries.last(), depth));
        assert(entry_names_differ(entries.last()));
        match entries.last().object {
            GitObject::Blob => {},
            GitObject::Tree(inner) => {
                assert(decreases_to!(entries => entries[entries.len() - 1]));
                lemma_shown_names(inner@, depth + 1, rows, middle + 1);
            },
        }
        lemma_shown(entries, depth, rows, from);
        lemma_shown(entries.drop_last(), depth, rows, from);
        lemma_nodes(entries);
        lemma_nodes(entries.drop_last());
        work_tree::lemma_forest_splits(rows, from, middle, end, depth);
        assert(work_tree::forest(rows, middle, end, depth).len() == 1);
        assert(work_tree::names_fit(rows, end, end, depth));
        assert(work_tree::names_fit(rows, middle, end, depth));
        work_tree::lemma_names_fit_together(rows, from, middle, end, depth);
    }
}

/// A tree that shows the listing of a commit can be shown as a directory, where no two
/// entries of one directory of the commit have one name.
pub proof fn law_listing_fits_a_tree(entries: Seq<GitEntry>, rows: Seq<EntryModel>)
    requires
        depths_fit(entries, 1),
        names_differ(entries),
        rows.len() == visited(entries, 1).len(),
        shows(rows, 0, visited(entries, 1)),
    ensures
        work_tree::fits_a_tree(rows),
{
    lemma_shown_names(entries, 1, rows, 0);
    lemma_visited_depth(entries, 1);
    assert forall|i: int| 0 <= i < rows.len() implies (#[trigger] rows[i]).depth >= 1 by {
        assert(rows[0 + i].depth == visited(entries, 1)[i].depth);
    }
}

/// A file of a commit is shown as a file and a directory as a directory with all that is
/// in it, in order, under their names; none is ignored.
pub proof fn law_commit_is_shown_as_it_is(entry: GitEntry, index: int)
    ensures
        node(entry).name == entry.name@,
        !node(entry).ignored,
        !node(entry).symlink,
        node(entry).children is Some <==> entry.object is Tree,
        entry.object matches GitObject::Tree(entries) ==> node(entry).children->0.len()
            == entries@.len(),
        entry.object matches GitObject::Tree(entries) ==> (0 <= index < entries@.len() ==> node(
            entry,
        ).children->0[index] == node(entries@[index])),
{
    if let GitObject::Tree(entries) = entry.object {
        lemma_each_node(entries@);
    }
}

proof fn lemma_each_node(entries: Seq<GitEntry>)
    ensures
        nodes(entries).len() == entries.len(),
        forall|i: int| 0 <= i < entries.len() ==> #[trigger] nodes(entries)[i] == node(entries[i]),
    decreases entries.len(),
{
    if entries.len() > 0 {
        lemma_each_node(entries.drop_last());
    }
}

/// How many entries a commit has, with all that is in its directories.
pub open spec fn count(entries: Seq<GitEntry>) -> nat
    decreases entries,
{
    if entries.len() == 0 {
        0
    } else {
        count(entries.drop_last()) + match entries.last().object {
            GitObject::Blob => 1,
            GitObject::Tree(inner) => 1 + count(inner@),
        }
    }
}

/// Every entry of a commit is listed, and none twice.
pub proof fn law_every_entry_is_listed(entries: Seq<GitEntry>, depth: int)
    ensures
        visited(entries, depth).len() == count(entries),
    decreases entries,
{
    if entries.len() > 0 {
        law_every_entry_is_listed(entries.drop_last(), depth);
        assert(decreases_to!(entries => entries[entries.len() - 1]));
        let last = entries.last();
        if let GitObject::Tree(inner) = last.object {
            law_every_entry_is_listed(inner@, depth + 1);
            assert(visited_entry(last, depth).len() == 1 + visited(inner@, depth + 1).len());
        } else {
            assert(visited_entry(last, depth).len() == 1);
        }
    }
}

/// What is in one part of a directory is listed before what is in the other.
pub proof fn law_listing_in_parts(first: Seq<GitEntry>, second: Seq<GitEntry>, depth: int)
    ensures
        visited(first + second, depth) == visited(first, depth) + visited(second, depth),
    decreases second.len(),
{
    let both = first + second;
    if second.len() == 0 {
        assert(both =~= first);
        assert(visited(first, depth) + visited(second, depth) =~= visited(first, depth));
    } else {
        assert(both.drop_last() =~= first + second.drop_last());
        law_listing_in_parts(first, second.drop_last(), depth);
        assert(visited(both, depth) =~= visited(first, depth) + visited(second, depth));
    }
}

/// An entry is listed under its name at its depth, and a directory is followed by what is
/// in it, one deeper.
pub proof fn law_entry_is_listed(entry: GitEntry, depth: usize)
    requires
        depth < usize::MAX,
    ensures
        ({
            let listing = visited(seq![entry], depth as int);
            &&& listing.len() > 0
            &&& listing[0].depth == depth
            &&& listing[0].name == entry.name@
            &&& entry.object is Blob ==> listing.len() == 1 && listing[0].file_type
                == FileType::Text
            &&& entry.object matches GitObject::Tree(entries) ==> listing[0].file_type
                == FileType::Directory && listing.skip(1) == visited(entries@, depth + 1)
        }),
{
    assert(seq![entry].drop_last() =~= Seq::<GitEntry>::empty());
    assert(seq![entry].last() == entry);
    assert(visited(seq![entry].drop_last(), depth as int) == Seq::<DirEntryModel>::empty());
    assert(visited(seq![entry], depth as int) =~= visited_entry(entry, depth as int));
    if let GitObject::Tree(entries) = entry.object {
        assert(visited(seq![entry], depth as int).skip(1) =~= visited(entries@, depth + 1));
    }
}

/// Entries of a listing keep their places.
pub proof fn law_listed_entries_keep_places(entries: Seq<DirEntry>, index: int)
    requires
        0 <= index < entries.len(),
    ensures
        dir_entry_models(entries).len() == entries.len(),
        dir_entry_models(entries)[index] == entries[index]@,
{
}

} // verus!
