//! Files and directories.

use vstd::prelude::*;

verus! {

/// Which entry of a tree is meant.
pub type EntryId = u128;

#[derive(Clone, Copy, Debug, PartialEq, Eq, Structural)]
pub enum FileType {
    Directory,
    Text,
}

#[derive(Clone, Copy, Debug, PartialEq, Eq, Structural)]
pub enum FileStatus {
    New,
    Renamed,
    Removed,
    Modified,
    RenamedAndModified,
    Unchanged,
}

/// A file or directory as a listing has it: with the number of directories that
/// it is in, counting the root.
#[derive(Debug)]
pub struct DirEntry {
    pub depth: usize,
    pub name: String,
    pub file_type: FileType,
}

/// A directory entry as a mathematical value.
pub struct DirEntryModel {
    pub depth: usize,
    pub name: Seq<char>,
    pub file_type: FileType,
}

impl View for DirEntry {
    type V = DirEntryModel;

    open spec fn view(&self) -> DirEntryModel {
        DirEntryModel { depth: self.depth, name: self.name@, file_type: self.file_type }
    }
}

/// A file, or a directory with what is in it.
pub struct Entry {
    pub id: EntryId,
    pub name: String,
    pub symlink: bool,
    pub ignored: bool,
    pub children: Option<Vec<Entry>>,
}

/// The characters by which an entry is searched: a directory has a slash at the
/// end.
pub open spec fn search_chars(entry: Entry) -> Seq<char> {
    if entry.children is Some {
        entry.name@.push('/')
    } else {
        entry.name@
    }
}

/// Whether there is an entry of some name among others.
pub open spec fn has_name(entries: Seq<Entry>, name: Seq<char>) -> bool {
    exists|i: int| 0 <= i < entries.len() && (#[trigger] entries[i]).name@ == name
}

impl Entry {
    pub fn file(id: EntryId, name: String, symlink: bool, ignored: bool) -> (entry: Entry)
        ensures
            entry.id == id,
            entry.name@ == name@,
            entry.symlink == symlink,
            entry.ignored == ignored,
            entry.children is None,
    {
        Entry { id, name, symlink, ignored, children: None }
    }

    pub fn dir(id: EntryId, name: String, symlink: bool, ignored: bool) -> (entry: Entry)
        ensures
            entry.id == id,
            entry.name@ == name@,
            entry.symlink == symlink,
            entry.ignored == ignored,
            entry.children matches Some(children) && children@ == Seq::<Entry>::empty(),
    {
        Entry { id, name, symlink, ignored, children: Some(Vec::new()) }
    }

    pub fn is_dir(&self) -> (is_dir: bool)
        ensures
            is_dir == (self.children is Some),
    {
        self.children.is_some()
    }

    pub fn id(&self) -> (id: EntryId)
        ensures
            id == self.id,
    {
        self.id
    }

    pub fn name(&self) -> (name: &str)
        ensures
            name@ == self.name@,
    {
        self.name.as_str()
    }

    pub fn is_symlink(&self) -> (is_symlink: bool)
        ensures
            is_symlink == self.symlink,
    {
        self.symlink
    }

    pub fn is_ignored(&self) -> (is_ignored: bool)
        ensures
            is_ignored == self.ignored,
    {
        self.ignored
    }

    /// What is in a directory.
    pub fn children(&self) -> (children: Option<&Vec<Entry>>)
        ensures
            children == (match self.children {
                Some(children) => Some(&children),
                None => None,
            }),
    {
        self.children.as_ref()
    }

    /// The characters by which an entry is searched.
    pub fn name_chars(&self) -> (chars: Vec<char>)
        ensures
            chars@ == search_chars(*self),
    {
        let mut chars: Vec<char> = Vec::new();
        for c in all: self.name.as_str().chars()
            invariant
                all.seq() == self.name@,
                chars@ == self.name@.take(all.index() as int),
        {
            chars.push(c);
            assert(chars@ =~= self.name@.take(all.index() + 1));
        }
        assert(chars@ =~= self.name@);
        if self.children.is_some() {
            chars.push('/');
        }
        chars
    }

    /// Puts an entry into a directory, unless it has one of that name.
    pub fn insert(&mut self, entry: Entry) -> (result: Result<(), ()>)
        ensures
            final(self).id == old(self).id,
            final(self).name == old(self).name,
            final(self).symlink == old(self).symlink,
            final(self).ignored == old(self).ignored,
            match old(self).children {
                Some(children) => final(self).children matches Some(after) && (if has_name(
                    children@,
                    entry.name@,
                ) {
                    result is Err && after@ == children@
                } else {
                    result is Ok && after@ == children@.push(entry)
                }),
                None => result is Err && final(self).children is None,
            },
    {
        match self.children.take() {
            Some(children) => {
                let mut children = children;
                let mut i: usize = 0;
                while i < children.len()
                    invariant
                        i <= children@.len(),
                        self.children is None,
                        self.id == old(self).id,
                        self.name == old(self).name,
                        self.symlink == old(self).symlink,
                        self.ignored == old(self).ignored,
                        old(self).children == Some(children),
                        forall|j: int|
                            0 <= j < i ==> (#[trigger] children@[j]).name@ != entry.name@,
                    decreases children@.len() - i,
                {
                    if children[i].name == entry.name {
                        self.children = Some(children);
                        return Err(());
                    }
                    i += 1;
                }
                children.push(entry);
                self.children = Some(children);
                Ok(())
            },
            None => Err(()),
        }
    }
}

/// A directory entry as a mathematical value says all that the entry does.
pub proof fn law_dir_entry_as_value(entry: DirEntry)
    ensures
        entry@.depth == entry.depth,
        entry@.name == entry.name@,
        entry@.file_type == entry.file_type,
{
}

} // verus!
