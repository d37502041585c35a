//! Projects: the trees that a workspace shows.

use std::collections::{hash_map, HashMap};
use std::rc::Rc;

use vstd::prelude::*;

use crate::buffer::BufferId;
use crate::error::{Error, MemoError, RpcError};
use crate::fs;
use crate::git::Oid;
use crate::path_search::{self, PathSearch, PathSearchStatus, TreeId};
use crate::strings;
use crate::text;
use crate::usize_map::{UsizeMap, UsizeMapModel};
use crate::work_tree::{self, BufferHandle, OpenedFile, StartedTree, WorkTree};

verus! {

/// Which service of a connection is meant.
pub type ServiceId = usize;

/// How far apart the numbers of entries in two trees are.
pub const TREE_STRIDE: u128 = 0x1_0000_0000_0000_0000;

/// Whether a directory is what a tree amounts to.
pub open spec fn is_root_of(root: fs::Entry, tree: WorkTree) -> bool {
    &&& root.name@ == "/"@
    &&& !root.ignored
    &&& root.children matches Some(children) && work_tree::nodes(children@) == work_tree::forest(
        tree@.shown(),
        0,
        tree@.shown().len() as int,
        1,
    )
}

/// Whether a search is for a query in just these trees, in one order or another.
pub open spec fn searches(
    search: PathSearch,
    trees: Map<TreeId, WorkTree>,
    needle: Seq<char>,
    max_results: usize,
    include_ignored: bool,
) -> bool {
    &&& search.wf()
    &&& search.tree_ids().no_duplicates()
    &&& search.tree_ids().to_set() == trees.dom()
    &&& forall|i: int|
        0 <= i < search.roots().len() ==> is_root_of(
            #[trigger] search.roots()[i],
            trees[search.tree_ids()[i]],
        )
    &&& path_search::distinct_ids(search.roots())
    &&& search.needle() == needle
    &&& search.max_results() == max_results
    &&& search.include_ignored() == include_ignored
    &&& search.status() == PathSearchStatus::Pending
}

/// A search in trees.
fn search_trees(
    tree_ids: Vec<TreeId>,
    trees: Vec<&WorkTree>,
    needle: &str,
    max_results: usize,
    include_ignored: bool,
    Ghost(all): Ghost<Map<TreeId, WorkTree>>,
) -> (search: PathSearch)
    requires
        tree_ids@.len() == trees@.len(),
        tree_ids@.no_duplicates(),
        tree_ids@.to_set() == all.dom(),
        forall|i: int|
            0 <= i < trees@.len() ==> *(#[trigger] trees@[i]) == all[tree_ids@[i]]
                && trees@[i]@.fits_a_tree(),
    ensures
        searches(search, all, needle@, max_results, include_ignored),
{
    let mut roots: Vec<fs::Entry> = Vec::new();
    let mut i: usize = 0;
    while i < trees.len()
        invariant
            i <= trees@.len(),
            roots@.len() == i,
            tree_ids@.len() == trees@.len(),
            forall|j: int|
                0 <= j < trees@.len() ==> *(#[trigger] trees@[j]) == all[tree_ids@[j]]
                    && trees@[j]@.fits_a_tree(),
            forall|j: int|
                0 <= j < i ==> is_root_of(#[trigger] roots@[j], all[tree_ids@[j]]),
            path_search::distinct_ids(roots@),
            forall|id: fs::EntryId| #[trigger]
                path_search::ids(roots@).contains(id) ==> id < i * TREE_STRIDE,
        decreases trees@.len() - i,
    {
        let ghost before = roots@;
        let tree = trees[i];
        proof {
            assert(*trees@[i as int] == all[tree_ids@[i as int]]);
            let len = tree@.rows.len();
            assert(len <= usize::MAX) by {
                tree.lemma_len();
            }
            assert(i * TREE_STRIDE + len < (i + 1) * TREE_STRIDE) by (nonlinear_arith)
                requires
                    len < TREE_STRIDE,
            ;
            assert((i + 1) * TREE_STRIDE <= 0xffff_ffff_ffff_ffff * TREE_STRIDE)
                by (nonlinear_arith)
                requires
                    i + 1 <= 0xffff_ffff_ffff_ffff,
            ;
        }
        let root = tree.root(i as u128 * TREE_STRIDE);
        roots.push(root);
        proof {
            assert(roots@.drop_last() =~= before);
            assert(path_search::ids(before).disjoint(path_search::entry_ids(root))) by {
                assert forall|id: fs::EntryId|
                    path_search::ids(before).contains(id) implies !path_search::entry_ids(
                    root,
                ).contains(id) by {}
            }
            assert(path_search::distinct_ids(roots@.drop_last()));
            assert(roots@.last() == root);
            assert(path_search::distinct_ids(roots@));
            assert forall|id: fs::EntryId| #[trigger]
                path_search::ids(roots@).contains(id) implies id < (i + 1) * TREE_STRIDE by {
                assert(path_search::ids(before).contains(id) || path_search::entry_ids(
                    root,
                ).contains(id));
            }
        }
        i += 1;
    }
    let search = PathSearch::new(tree_ids, roots, strings::chars_of(needle), max_results, include_ignored);
    proof {
        assert forall|j: int| 0 <= j < search.roots().len() implies (
        #[trigger] search.roots()[j]).children is Some by {
            assert(is_root_of(roots@[j], all[tree_ids@[j]]));
        }
        assert forall|j: int| 0 <= j < search.roots().len() implies is_root_of(
            #[trigger] search.roots()[j],
            all[search.tree_ids()[j]],
        ) by {
            assert(is_root_of(roots@[j], all[tree_ids@[j]]));
        }
    }
    search
}

/// Trees whose files can be searched together.
pub trait Project {
    /// The trees, by their numbers.
    spec fn work_trees(&self) -> Map<TreeId, WorkTree>;

    /// A search for files by their path.
    fn search_paths(&self, needle: &str, max_results: usize, include_ignored: bool) -> (search:
        PathSearch)
        requires
            forall|id: TreeId| #[trigger]
                self.work_trees().dom().contains(id) ==> self.work_trees()[id]@.fits_a_tree(),
        ensures
            searches(search, self.work_trees(), needle@, max_results, include_ignored),
    ;
}

/// A project on this machine.
pub struct LocalProject {
    trees: UsizeMap<WorkTree>,
}

/// The trees of a list, numbered from zero on.
pub open spec fn numbered(trees: Seq<WorkTree>) -> UsizeMapModel<WorkTree>
    decreases trees.len(),
{
    if trees.len() == 0 {
        UsizeMapModel { next_id: 0, entries: Map::empty() }
    } else {
        numbered(trees.drop_last()).with(trees.last())
    }
}

proof fn lemma_numbered(trees: Seq<WorkTree>)
    requires
        trees.len() <= usize::MAX,
    ensures
        numbered(trees).next_id == trees.len(),
        forall|id: TreeId| #[trigger]
            numbered(trees).entries.dom().contains(id) <==> id < trees.len(),
        forall|id: TreeId|
            id < trees.len() ==> #[trigger] numbered(trees).entries[id] == trees[id as int],
    decreases trees.len(),
{
    if trees.len() > 0 {
        lemma_numbered(trees.drop_last());
    }
}

impl LocalProject {
    /// The trees, by their numbers.
    pub closed spec fn trees(&self) -> UsizeMapModel<WorkTree> {
        self.trees@
    }

    /// Every number in use was given out, and every tree is well-formed.
    pub open spec fn wf(&self) -> bool {
        forall|id: TreeId| #[trigger]
            self.trees().entries.dom().contains(id) ==> id < self.trees().next_id
                && self.trees().entries[id].wf()
    }

    /// A project of trees, numbered in order.
    pub fn new(trees: Vec<WorkTree>) -> (project: LocalProject)
        requires
            forall|i: int| 0 <= i < trees@.len() ==> (#[trigger] trees@[i]).wf(),
        ensures
            project.wf(),
            project.trees() == numbered(trees@),
    {
        let mut project = LocalProject { trees: UsizeMap::new() };
        let ghost all = trees@;
        assert(all.len() == trees.len());
        let mut rest = trees;
        assert(all.take(0) =~= Seq::empty());
        assert(rest@ =~= all.skip(0));
        let ghost mut count: int = 0;
        while rest.len() > 0
            invariant
                0 <= count <= all.len(),
                all.len() <= usize::MAX,
                rest@ == all.skip(count),
                forall|i: int| 0 <= i < all.len() ==> (#[trigger] all[i]).wf(),
                project.wf(),
                project.trees() == numbered(all.take(count)),
            decreases rest@.len(),
        {
            let tree = rest.remove(0);
            proof {
                assert(tree == all[count]);
                lemma_numbered(all.take(count));
                assert(all.take(count + 1).drop_last() =~= all.take(count));
            }
            project.add_tree(tree);
            proof {
                count = count + 1;
                assert(rest@ =~= all.skip(count));
            }
        }
        assert(all.take(count) =~= all);
        project
    }

    /// Adds a tree.
    pub fn add_tree(&mut self, tree: WorkTree)
        requires
            old(self).wf(),
            old(self).trees().next_id < usize::MAX,
            tree.wf(),
        ensures
            final(self).trees() == old(self).trees().with(tree),
            final(self).wf(),
    {
        let _ = self.trees.add(tree);
    }

    /// A tree.
    pub fn tree(&self, tree_id: TreeId) -> (tree: Option<&WorkTree>)
        ensures
            tree == (if self.trees().entries.contains_key(tree_id) {
                Some(&self.trees().entries[tree_id])
            } else {
                None
            }),
    {
        self.trees.get(&tree_id)
    }

    /// A tree, to be changed in place.
    pub fn tree_mut(&mut self, tree_id: TreeId) -> (tree: Option<&mut WorkTree>)
        ensures
            match tree {
                Some(tree) => old(self).trees().entries.contains_key(tree_id) && *tree
                    == old(self).trees().entries[tree_id] && final(self).trees() == (UsizeMapModel {
                    entries: old(self).trees().entries.insert(tree_id, *final(tree)),
                    ..old(self).trees()
                }),
                None => !old(self).trees().entries.contains_key(tree_id) && final(self).trees()
                    == old(self).trees(),
            },
    {
        self.trees.get_mut(&tree_id)
    }

    /// Opens a file of a tree, where the tree has opened it.
    pub fn open_path(&mut self, tree_id: TreeId, opened: Result<OpenedFile, MemoError>) -> (result:
        Result<Rc<BufferHandle>, Error>)
        requires
            old(self).wf(),
            old(self).trees().entries.contains_key(tree_id),
            opened matches Ok(file) ==> text::fits(file.text@),
        ensures
            final(self).trees().next_id == old(self).trees().next_id,
            final(self).trees().entries.dom() == old(self).trees().entries.dom(),
            forall|id: TreeId| #[trigger]
                old(self).trees().entries.dom().contains(id) && id != tree_id
                    ==> final(self).trees().entries[id] == old(self).trees().entries[id],
            match opened {
                Ok(file) => {
                    &&& result matches Ok(handle)
                    &&& handle.id == file.buffer_id
                    &&& old(self).trees().entries[tree_id].hands_out(
                        file.buffer_id,
                        handle,
                        final(self).trees().entries[tree_id]@,
                    )
                    &&& old(self).trees().entries[tree_id]@.opens(
                        file,
                        final(self).trees().entries[tree_id]@,
                    )
                },
                Err(error) => {
                    &&& result == Err::<Rc<BufferHandle>, Error>(Error::Memo(error))
                    &&& final(self).trees().entries[tree_id]@
                        == old(self).trees().entries[tree_id]@
                },
            },
            final(self).wf(),
    {
        match self.trees.get_mut(&tree_id) {
            Some(tree) => tree.open_text_file(opened),
            None => Err(Error::Memo(MemoError::InvalidPath)),
        }
    }
}

impl Project for LocalProject {
    open spec fn work_trees(&self) -> Map<TreeId, WorkTree> {
        self.trees().entries
    }

    fn search_paths(&self, needle: &str, max_results: usize, include_ignored: bool) -> (search:
        PathSearch) {
        let entries = self.trees.iter();
        let mut tree_ids: Vec<TreeId> = Vec::new();
        let mut trees: Vec<&WorkTree> = Vec::new();
        let mut i: usize = 0;
        while i < entries.len()
            invariant
                i <= entries@.len(),
                tree_ids@.len() == i,
                trees@.len() == i,
                forall|j: int|
                    0 <= j < i ==> #[trigger] tree_ids@[j] == entries@[j].0,
                forall|j: int| 0 <= j < i ==> #[trigger] trees@[j] == entries@[j].1,
            decreases entries@.len() - i,
        {
            tree_ids.push(entries[i].0);
            trees.push(entries[i].1);
            i += 1;
        }
        proof {
            let ids = entries@.map_values(|entry: (usize, &WorkTree)| entry.0);
            assert(tree_ids@ =~= ids);
            assert forall|j: int| 0 <= j < trees@.len() implies *(#[trigger] trees@[j])
                == self.trees().entries[tree_ids@[j]] && trees@[j]@.fits_a_tree() by {
                assert(entries@[j].1 == trees@[j]);
                assert(self.work_trees().dom().contains(entries@[j].0));
            }
        }
        search_trees(
            tree_ids,
            trees,
            needle,
            max_results,
            include_ignored,
            Ghost(self.trees().entries),
        )
    }
}

/// Which services of a connection serve a tree.
#[derive(Clone, Copy, Debug, PartialEq, Eq, Structural)]
pub struct TreeServices {
    pub tree_id: TreeId,
    pub git_service_id: ServiceId,
    pub network_service_id: ServiceId,
}

/// What a client is told of a project first: the commit that each tree is based on,
/// and the services of each.
pub struct RpcState {
    pub oids: HashMap<TreeId, Option<Oid>>,
    pub trees: HashMap<TreeId, (ServiceId, ServiceId)>,
}

/// A tree that a client is told of: the commit that it is based on, and its
/// services.
#[derive(Clone, Copy, Debug, PartialEq, Eq)]
pub struct RemoteTree {
    pub services: TreeServices,
    pub oid: Option<Oid>,
}

/// What a client asks of a project.
#[derive(Debug)]
pub enum RpcRequest {
    OpenPath { tree_id: TreeId, relative_path: String },
}

/// What a client is answered.
#[derive(Debug)]
pub enum RpcResponse {
    OpenedBuffer(Result<BufferId, RpcError>),
}

/// Serves a project to a client.
pub struct ProjectService {
    tree_services: HashMap<TreeId, (ServiceId, ServiceId)>,
}

impl ProjectService {
    /// The services of each tree.
    pub closed spec fn tree_services(&self) -> Map<TreeId, (ServiceId, ServiceId)> {
        self.tree_services@
    }

    pub fn new() -> (service: ProjectService)
        ensures
            service.tree_services() == Map::<TreeId, (ServiceId, ServiceId)>::empty(),
    {
        ProjectService { tree_services: HashMap::new() }
    }

    /// What a client is told first, where each tree has got its services.
    pub fn init(&mut self, project: &LocalProject, services: &Vec<TreeServices>) -> (state: RpcState)
        requires
            forall|i: int|
                0 <= i < services@.len() ==> project.trees().entries.contains_key(
                    (#[trigger] services@[i]).tree_id,
                ),
            forall|i: int, j: int|
                0 <= i < j < services@.len() ==> services@[i].tree_id != services@[j].tree_id,
        ensures
            state.oids@.dom() == state.trees@.dom(),
            forall|id: TreeId| #[trigger]
                state.trees@.dom().contains(id) ==> exists|i: int|
                    0 <= i < services@.len() && (#[trigger] services@[i]).tree_id == id,
            forall|i: int|
                0 <= i < services@.len() ==> {
                    let service = #[trigger] services@[i];
                    &&& state.trees@.dom().contains(service.tree_id)
                    &&& state.trees@[service.tree_id] == (
                        service.git_service_id,
                        service.network_service_id,
                    )
                    &&& state.oids@[service.tree_id]
                        == project.trees().entries[service.tree_id]@.head
                },
            final(self).tree_services() == old(self).tree_services().union_prefer_right(
                state.trees@,
            ),
    {
        broadcast use vstd::std_specs::hash::group_hash_axioms;

        let mut oids: HashMap<TreeId, Option<Oid>> = HashMap::new();
        let mut trees: HashMap<TreeId, (ServiceId, ServiceId)> = HashMap::new();
        let mut i: usize = 0;
        assert(self.tree_services() =~= old(self).tree_services().union_prefer_right(trees@));
        while i < services.len()
            invariant
                i <= services@.len(),
                forall|j: int|
                    0 <= j < services@.len() ==> project.trees().entries.contains_key(
                        (#[trigger] services@[j]).tree_id,
                    ),
                forall|j: int, k: int|
                    0 <= j < k < services@.len() ==> services@[j].tree_id != services@[k].tree_id,
                oids@.dom() == trees@.dom(),
                forall|id: TreeId| #[trigger]
                    trees@.dom().contains(id) ==> exists|j: int|
                        0 <= j < i && (#[trigger] services@[j]).tree_id == id,
                forall|j: int|
                    0 <= j < i ==> {
                        let service = #[trigger] services@[j];
                        &&& trees@.dom().contains(service.tree_id)
                        &&& trees@[service.tree_id] == (
                            service.git_service_id,
                            service.network_service_id,
                        )
                        &&& oids@[service.tree_id] == project.trees().entries[service.tree_id]@.head
                    },
                self.tree_services() == old(self).tree_services().union_prefer_right(trees@),
            decreases services@.len() - i,
        {
            let service = services[i];
            let ghost before = trees@;
            assert(project.trees().entries.contains_key(services@[i as int].tree_id));
            if let Some(tree) = project.tree(service.tree_id) {
                let ids: (ServiceId, ServiceId) = (
                    service.git_service_id,
                    service.network_service_id,
                );
                trees.insert(service.tree_id, ids);
                oids.insert(service.tree_id, tree.head());
                self.tree_services.insert(service.tree_id, ids);
            }
            proof {
                assert(oids@.dom() =~= trees@.dom());
                assert(self.tree_services() =~= old(self).tree_services().union_prefer_right(
                    trees@,
                ));
                assert forall|id: TreeId| #[trigger] trees@.dom().contains(id) implies exists|j: int|
                    0 <= j < i + 1 && (#[trigger] services@[j]).tree_id == id by {
                    if id == service.tree_id {
                        assert(services@[i as int].tree_id == id);
                    } else {
                        assert(before.dom().contains(id));
                    }
                }
            }
            i += 1;
        }
        RpcState { oids, trees }
    }

    /// Opens a file for a client, where its tree has opened it in a given way, and
    /// answers.
    pub fn request<F>(&self, project: &mut LocalProject, request: RpcRequest, open: F) -> (response:
        RpcResponse) where F: FnOnce(TreeId, String) -> Result<OpenedFile, MemoError>
        requires
            old(project).wf(),
            request matches RpcRequest::OpenPath { tree_id, relative_path } && old(
                project,
            ).trees().entries.contains_key(tree_id) && open.requires((tree_id, relative_path))
                && forall|opened: Result<OpenedFile, MemoError>| #[trigger]
                open.ensures((tree_id, relative_path), opened) ==> (opened matches Ok(file)
                    ==> text::fits(file.text@)),
        ensures
            request matches RpcRequest::OpenPath { tree_id, relative_path } && exists|
                opened: Result<OpenedFile, MemoError>,
            |
                {
                    &&& #[trigger] open.ensures((tree_id, relative_path), opened)
                    &&& match opened {
                        Ok(file) => {
                            &&& response == RpcResponse::OpenedBuffer(Ok(file.buffer_id))
                            &&& exists|handle: Rc<BufferHandle>| #[trigger]
                                old(project).trees().entries[tree_id].hands_out(
                                    file.buffer_id,
                                    handle,
                                    final(project).trees().entries[tree_id]@,
                                )
                            &&& old(project).trees().entries[tree_id]@.opens(
                                file,
                                final(project).trees().entries[tree_id]@,
                            )
                        },
                        Err(_) => {
                            &&& response matches RpcResponse::OpenedBuffer(
                                Err(RpcError::IoError(description)),
                            ) && description@ == "Err"@
                            &&& final(project).trees().entries[tree_id]@ == old(
                                project,
                            ).trees().entries[tree_id]@
                        },
                    }
                } && forall|id: TreeId| #[trigger]
                old(project).trees().entries.dom().contains(id) && id != tree_id
                    ==> final(project).trees().entries[id] == old(project).trees().entries[id],
            final(project).trees().next_id == old(project).trees().next_id,
            final(project).trees().entries.dom() == old(project).trees().entries.dom(),
            final(project).wf(),
    {
        match request {
            RpcRequest::OpenPath { tree_id, relative_path } => {
                let opened = open(tree_id, relative_path);
                ProjectService::opened_buffer(project.open_path(tree_id, opened))
            },
        }
    }

    /// What a client is answered who asked for a file.
    pub fn opened_buffer(result: Result<Rc<BufferHandle>, Error>) -> (response: RpcResponse)
        ensures
            match (result, response) {
                (Ok(handle), RpcResponse::OpenedBuffer(opened)) => opened
                    == Ok::<BufferId, RpcError>(handle.id),
                (Err(_), RpcResponse::OpenedBuffer(opened)) => opened matches Err(
                    RpcError::IoError(description),
                ) && description@ == "Err"@,
            },
    {
        match result {
            Ok(handle) => RpcResponse::OpenedBuffer(Ok(handle.id)),
            Err(_) => RpcResponse::OpenedBuffer(Err(RpcError::IoError("Err".to_owned()))),
        }
    }
}

/// A project that is reached through a connection.
pub struct RemoteProject {
    trees: HashMap<TreeId, WorkTree>,
    buffers: HashMap<TreeId, (BufferId, BufferId)>,
}

/// The trees of a list, by their numbers. Of trees with one number, the last
/// counts.
pub open spec fn tree_map(trees: Seq<(TreeId, WorkTree)>) -> Map<TreeId, WorkTree>
    decreases trees.len(),
{
    if trees.len() == 0 {
        Map::empty()
    } else {
        tree_map(trees.drop_last()).insert(trees.last().0, trees.last().1)
    }
}

/// The first reason why a tree could not be started.
pub open spec fn first_error(results: Seq<Result<(TreeId, WorkTree), Error>>) -> Option<Error>
    decreases results.len(),
{
    if results.len() == 0 {
        None
    } else {
        match (first_error(results.drop_last()), results.last()) {
            (None, Err(error)) => Some(error),
            (earlier, _) => earlier,
        }
    }
}

/// The trees that were started, in order.
pub open spec fn started_trees(results: Seq<Result<(TreeId, WorkTree), Error>>) -> Seq<
    (TreeId, WorkTree),
>
    decreases results.len(),
{
    if results.len() == 0 {
        Seq::empty()
    } else {
        match results.last() {
            Ok(tree) => started_trees(results.drop_last()).push(tree),
            Err(_) => started_trees(results.drop_last()),
        }
    }
}

/// A reason that comes first among the first few results comes first among all.
proof fn lemma_first_error_stays(results: Seq<Result<(TreeId, WorkTree), Error>>, count: int)
    requires
        0 <= count <= results.len(),
    ensures
        first_error(results.take(count)) is Some ==> first_error(results) == first_error(
            results.take(count),
        ),
    decreases results.len() - count,
{
    if count < results.len() {
        lemma_first_error_stays(results, count + 1);
        assert(results.take(count + 1).drop_last() =~= results.take(count));
    } else {
        assert(results.take(count) =~= results);
    }
}

impl RemoteProject {
    /// The trees, by their numbers.
    pub closed spec fn trees(&self) -> Map<TreeId, WorkTree> {
        self.trees@
    }

    /// The buffer that was opened last in each tree: its number at the other end, and
    /// here.
    pub closed spec fn buffers(&self) -> Map<TreeId, (BufferId, BufferId)> {
        self.buffers@
    }

    /// Every tree is well-formed.
    pub open spec fn wf(&self) -> bool {
        forall|id: TreeId| #[trigger] self.trees().dom().contains(id) ==> self.trees()[id].wf()
    }

    /// A project of trees.
    pub fn new(trees: Vec<(TreeId, WorkTree)>) -> (project: RemoteProject)
        requires
            forall|i: int| 0 <= i < trees@.len() ==> (#[trigger] trees@[i]).1.wf(),
        ensures
            project.trees() == tree_map(trees@),
            project.buffers() == Map::<TreeId, (BufferId, BufferId)>::empty(),
            project.wf(),
    {
        broadcast use vstd::std_specs::hash::group_hash_axioms;

        let mut map: HashMap<TreeId, WorkTree> = HashMap::new();
        let ghost all = trees@;
        let ghost mut count: int = 0;
        let mut rest = trees;
        assert(all.take(0) =~= Seq::empty());
        assert(rest@ =~= all.skip(0));
        while rest.len() > 0
            invariant
                0 <= count <= all.len(),
                rest@ == all.skip(count),
                forall|i: int| 0 <= i < all.len() ==> (#[trigger] all[i]).1.wf(),
                map@ == tree_map(all.take(count)),
                forall|id: TreeId| #[trigger] map@.dom().contains(id) ==> map@[id].wf(),
            decreases rest@.len(),
        {
            let (tree_id, tree) = rest.remove(0);
            proof {
                assert(all[count].1.wf());
                assert(all.take(count + 1).drop_last() =~= all.take(count));
            }
            map.insert(tree_id, tree);
            proof {
                count = count + 1;
                assert(rest@ =~= all.skip(count));
            }
        }
        assert(all.take(count) =~= all);
        RemoteProject { trees: map, buffers: HashMap::new() }
    }

    /// A project of the trees that were started, or the first reason why one could not
    /// be.
    pub fn from_results(results: Vec<Result<(TreeId, WorkTree), Error>>) -> (project: Result<
        RemoteProject,
        Error,
    >)
        requires
            forall|i: int|
                0 <= i < results@.len() ==> (#[trigger] results@[i] matches Ok((_, tree))
                    ==> tree.wf()),
        ensures
            match first_error(results@) {
                Some(error) => project matches Err(reason) && reason == error,
                None => {
                    &&& project matches Ok(project)
                    &&& project.trees() == tree_map(started_trees(results@))
                    &&& project.buffers() == Map::<TreeId, (BufferId, BufferId)>::empty()
                    &&& project.wf()
                },
            },
    {
        let ghost all = results@;
        let ghost mut count: int = 0;
        let mut trees: Vec<(TreeId, WorkTree)> = Vec::new();
        let mut rest = results;
        assert(all.take(0) =~= Seq::empty());
        assert(rest@ =~= all.skip(0));
        while rest.len() > 0
            invariant
                0 <= count <= all.len(),
                all == results@,
                rest@ == all.skip(count),
                forall|i: int|
                    0 <= i < all.len() ==> (#[trigger] all[i] matches Ok((_, tree))
                        ==> tree.wf()),
                first_error(all.take(count)) is None,
                trees@ == started_trees(all.take(count)),
                forall|i: int| 0 <= i < trees@.len() ==> (#[trigger] trees@[i]).1.wf(),
            decreases rest@.len(),
        {
            let ghost left = rest@;
            let result = rest.remove(0);
            proof {
                assert(left[0] == all[count]);
                assert(all[count] == result);
                assert(all.take(count + 1).drop_last() =~= all.take(count));
                assert(first_error(all.take(count + 1)) == (match result {
                    Ok(_) => None,
                    Err(error) => Some(error),
                }));
                lemma_first_error_stays(all, count + 1);
            }
            match result {
                Ok(tree) => {
                    trees.push(tree);
                },
                Err(error) => {
                    return Err(error);
                },
            }
            proof {
                count = count + 1;
                assert(rest@ =~= all.skip(count));
            }
        }
        assert(all.take(count) =~= all);
        Ok(RemoteProject::new(trees))
    }

    /// The trees that a client is told of, in one order or another.
    pub fn trees_to_open(state: &RpcState) -> (trees: Vec<RemoteTree>)
        requires
            state.trees@.dom().subset_of(state.oids@.dom()),
        ensures
            trees@.map_values(|tree: RemoteTree| tree.services.tree_id).no_duplicates(),
            trees@.map_values(|tree: RemoteTree| tree.services.tree_id).to_set()
                == state.trees@.dom(),
            forall|i: int|
                0 <= i < trees@.len() ==> {
                    let services = (#[trigger] trees@[i]).services;
                    &&& state.trees@[services.tree_id] == (
                        services.git_service_id,
                        services.network_service_id,
                    )
                    &&& state.oids@[services.tree_id] == trees@[i].oid
                },
    {
        broadcast use vstd::std_specs::hash::group_hash_axioms;

        let mut tree_ids: Vec<TreeId> = Vec::new();
        for key in all: state.trees.keys()
            invariant
                tree_ids@ == all.seq().unref().take(all.index() as int),
                all.seq().unref().to_set() == state.trees@.dom(),
                all.seq().no_duplicates(),
                all.index() == all.seq().len() ==> tree_ids@ =~= all.seq().unref(),
        {
            tree_ids.push(*key);
            assert(tree_ids@ =~= all.seq().unref().take(all.index() + 1));
        }
        let mut trees: Vec<RemoteTree> = Vec::new();
        let mut i: usize = 0;
        while i < tree_ids.len()
            invariant
                i <= tree_ids@.len(),
                trees@.len() == i,
                tree_ids@.to_set() == state.trees@.dom(),
                state.trees@.dom().subset_of(state.oids@.dom()),
                forall|j: int|
                    0 <= j < i ==> {
                        let services = (#[trigger] trees@[j]).services;
                        &&& services.tree_id == tree_ids@[j]
                        &&& state.trees@[services.tree_id] == (
                            services.git_service_id,
                            services.network_service_id,
                        )
                        &&& state.oids@[services.tree_id] == trees@[j].oid
                    },
            decreases tree_ids@.len() - i,
        {
            let tree_id = tree_ids[i];
            assert(tree_ids@.to_set().contains(tree_ids@[i as int]));
            if let (Some(ids), Some(oid)) = (state.trees.get(&tree_id), state.oids.get(&tree_id)) {
                trees.push(
                    RemoteTree {
                        services: TreeServices {
                            tree_id,
                            git_service_id: ids.0,
                            network_service_id: ids.1,
                        },
                        oid: *oid,
                    },
                );
            }
            i += 1;
        }
        assert(trees@.map_values(|tree: RemoteTree| tree.services.tree_id) =~= tree_ids@);
        trees
    }

    /// A tree of the project, where it could be started.
    pub fn create_work_tree(tree: RemoteTree, started: Result<StartedTree, Error>) -> (result:
        Result<(TreeId, WorkTree), Error>)
        ensures
            match started {
                Ok(started) => {
                    &&& result matches Ok((tree_id, work_tree))
                    &&& tree_id == tree.services.tree_id
                    &&& work_tree.wf()
                    &&& work_tree@ == work_tree::started(tree.oid, started)
                },
                Err(error) => result == Err::<(TreeId, WorkTree), Error>(error),
            },
    {
        match started {
            Ok(started) => Ok(
                (tree.services.tree_id, WorkTree::from_started(tree.oid, started)),
            ),
            Err(error) => Err(error),
        }
    }

    /// A tree.
    pub fn tree(&self, tree_id: TreeId) -> (tree: Option<&WorkTree>)
        ensures
            tree == (if self.trees().contains_key(tree_id) {
                Some(&self.trees()[tree_id])
            } else {
                None
            }),
    {
        broadcast use vstd::std_specs::hash::group_hash_axioms;

        self.trees.get(&tree_id)
    }

    /// What the other end is asked to open a file.
    pub fn open_request(tree_id: TreeId, relative_path: String) -> (request: RpcRequest)
        ensures
            request == (RpcRequest::OpenPath { tree_id, relative_path }),
    {
        RpcRequest::OpenPath { tree_id, relative_path }
    }

    /// Opens a file of a tree, where both the other end and the tree have opened it.
    /// Where the other end could not be asked, the tree opens nothing either.
    pub fn open_path(
        &mut self,
        tree_id: TreeId,
        response: Result<RpcResponse, RpcError>,
        opened: Result<OpenedFile, MemoError>,
    ) -> (result: Result<Rc<BufferHandle>, Error>)
        requires
            old(self).wf(),
            old(self).trees().contains_key(tree_id),
            opened matches Ok(file) ==> text::fits(file.text@),
        ensures
            final(self).trees().dom() == old(self).trees().dom(),
            forall|id: TreeId| #[trigger]
                old(self).trees().dom().contains(id) && id != tree_id ==> final(self).trees()[id]
                    == old(self).trees()[id],
            match (response, opened) {
                (Ok(_), Ok(file)) => {
                    &&& old(self).trees()[tree_id]@.opens(file, final(self).trees()[tree_id]@)
                    &&& exists|handle: Rc<BufferHandle>| #[trigger]
                        old(self).trees()[tree_id].hands_out(
                            file.buffer_id,
                            handle,
                            final(self).trees()[tree_id]@,
                        )
                },
                _ => final(self).trees()[tree_id]@ == old(self).trees()[tree_id]@,
            },
            match (response, opened) {
                (Ok(RpcResponse::OpenedBuffer(Ok(buffer_id))), Ok(file)) => {
                    &&& result matches Ok(handle)
                    &&& handle.id == file.buffer_id
                    &&& old(self).trees()[tree_id].hands_out(
                        file.buffer_id,
                        handle,
                        final(self).trees()[tree_id]@,
                    )
                    &&& final(self).buffers() == old(self).buffers().insert(
                        tree_id,
                        (buffer_id, file.buffer_id),
                    )
                },
                (Err(error), _) | (Ok(RpcResponse::OpenedBuffer(Err(error))), Ok(_)) => {
                    &&& result == Err::<Rc<BufferHandle>, Error>(Error::Rpc(error))
                    &&& final(self).buffers() == old(self).buffers()
                },
                (Ok(_), Err(error)) => {
                    &&& result == Err::<Rc<BufferHandle>, Error>(Error::Memo(error))
                    &&& final(self).buffers() == old(self).buffers()
                },
            },
            final(self).wf(),
    {
        broadcast use vstd::std_specs::hash::group_hash_axioms;

        let RpcResponse::OpenedBuffer(answer) = match response {
            Ok(response) => response,
            Err(error) => {
                return Err(Error::from(error));
            },
        };
        let handle = match self.trees.entry(tree_id) {
            hash_map::Entry::Occupied(entry) => {
                let tree = entry.into_mut();
                tree.open_text_file(opened)
            },
            hash_map::Entry::Vacant(_) => Err(Error::Memo(MemoError::InvalidPath)),
        };
        proof {
            assert(self.trees().dom() =~= old(self).trees().dom());
            if opened is Ok {
                assert(handle matches Ok(handle) && old(self).trees()[tree_id].hands_out(
                    opened->Ok_0.buffer_id,
                    handle,
                    self.trees()[tree_id]@,
                ));
            }
        }
        match (answer, handle) {
            (Ok(buffer_id), Ok(handle)) => {
                self.buffers.insert(tree_id, (buffer_id, handle.id));
                Ok(handle)
            },
            (Err(error), Ok(_)) => Err(Error::from(error)),
            (_, Err(error)) => Err(error),
        }
    }
}

impl Project for RemoteProject {
    open spec fn work_trees(&self) -> Map<TreeId, WorkTree> {
        self.trees()
    }

    fn search_paths(&self, needle: &str, max_results: usize, include_ignored: bool) -> (search:
        PathSearch) {
        broadcast use vstd::std_specs::hash::group_hash_axioms;

        let mut tree_ids: Vec<TreeId> = Vec::new();
        for key in all: self.trees.keys()
            invariant
                tree_ids@ == all.seq().unref().take(all.index() as int),
                all.seq().unref().to_set() == self.trees@.dom(),
                all.seq().no_duplicates(),
                all.index() == all.seq().len() ==> tree_ids@ =~= all.seq().unref(),
        {
            tree_ids.push(*key);
            assert(tree_ids@ =~= all.seq().unref().take(all.index() + 1));
        }
        let mut trees: Vec<&WorkTree> = Vec::new();
        let mut i: usize = 0;
        while i < tree_ids.len()
            invariant
                i <= tree_ids@.len(),
                trees@.len() == i,
                tree_ids@.to_set() == self.trees().dom(),
                forall|j: int|
                    0 <= j < i ==> *(#[trigger] trees@[j]) == self.trees()[tree_ids@[j]],
            decreases tree_ids@.len() - i,
        {
            assert(tree_ids@.to_set().contains(tree_ids@[i as int]));
            if let Some(tree) = self.tree(tree_ids[i]) {
                trees.push(tree);
            }
            i += 1;
        }
        proof {
            assert forall|j: int| 0 <= j < trees@.len() implies *(#[trigger] trees@[j])
                == self.trees()[tree_ids@[j]] && trees@[j]@.fits_a_tree() by {
                assert(tree_ids@.to_set().contains(tree_ids@[j]));
                assert(self.work_trees().dom().contains(tree_ids@[j]));
            }
        }
        search_trees(tree_ids, trees, needle, max_results, include_ignored, Ghost(self.trees()))
    }
}

/// The trees of a project on this machine are numbered in order from zero on.
pub proof fn law_trees_are_numbered(trees: Seq<WorkTree>, id: TreeId)
    requires
        trees.len() <= usize::MAX,
    ensures
        numbered(trees).next_id == trees.len(),
        numbered(trees).entries.contains_key(id) <==> id < trees.len(),
        id < trees.len() ==> numbered(trees).entries[id] == trees[id as int],
{
    lemma_numbered(trees);
    assert(numbered(trees).entries.dom().contains(id) <==> id < trees.len());
}

/// A project is made of all trees that are given, each under its number; of trees with
/// one number the last counts.
pub proof fn law_trees_stand_under_their_numbers(trees: Seq<(TreeId, WorkTree)>, index: int)
    requires
        0 <= index < trees.len(),
        forall|j: int| index < j < trees.len() ==> (#[trigger] trees[j]).0 != trees[index].0,
    ensures
        tree_map(trees).contains_key(trees[index].0),
        tree_map(trees)[trees[index].0] == trees[index].1,
    decreases trees.len(),
{
    if index < trees.len() - 1 {
        let fewer = trees.drop_last();
        assert(trees[trees.len() - 1].0 != trees[index].0);
        assert(fewer[index] == trees[index]);
        law_trees_stand_under_their_numbers(fewer, index);
    }
}

/// A project has no trees but those that are given.
pub proof fn law_no_other_trees(trees: Seq<(TreeId, WorkTree)>, id: TreeId)
    requires
        forall|j: int| 0 <= j < trees.len() ==> (#[trigger] trees[j]).0 != id,
    ensures
        !tree_map(trees).contains_key(id),
    decreases trees.len(),
{
    if trees.len() > 0 {
        assert(trees[trees.len() - 1].0 != id);
        law_no_other_trees(trees.drop_last(), id);
    }
}

/// Where a tree could not be started, the first reason is what comes of it.
pub proof fn law_first_error_comes_first(
    results: Seq<Result<(TreeId, WorkTree), Error>>,
    index: int,
)
    requires
        0 <= index < results.len(),
        results[index] is Err,
        forall|j: int| 0 <= j < index ==> (#[trigger] results[j]) is Ok,
    ensures
        first_error(results) == Some(results[index]->Err_0),
    decreases results.len(),
{
    let fewer = results.drop_last();
    if index < results.len() - 1 {
        assert(fewer[index] == results[index]);
        law_first_error_comes_first(fewer, index);
    } else {
        lemma_all_started(fewer);
    }
}

/// Where all trees could be started, there is no reason to fail, and the project has
/// all of them, in order.
pub proof fn law_all_started_trees_count(
    results: Seq<Result<(TreeId, WorkTree), Error>>,
    index: int,
)
    requires
        forall|j: int| 0 <= j < results.len() ==> (#[trigger] results[j]) is Ok,
        0 <= index < results.len(),
    ensures
        first_error(results) is None,
        started_trees(results).len() == results.len(),
        results[index] == Ok::<(TreeId, WorkTree), Error>(started_trees(results)[index]),
{
    lemma_all_started(results);
    assert(results[index] is Ok);
}

proof fn lemma_all_started(results: Seq<Result<(TreeId, WorkTree), Error>>)
    requires
        forall|j: int| 0 <= j < results.len() ==> (#[trigger] results[j]) is Ok,
    ensures
        first_error(results) is None,
        started_trees(results).len() == results.len(),
        forall|j: int|
            0 <= j < results.len() ==> #[trigger] started_trees(results)[j] == results[j]->Ok_0,
    decreases results.len(),
{
    if results.len() > 0 {
        let fewer = results.drop_last();
        assert forall|j: int| 0 <= j < fewer.len() implies (#[trigger] fewer[j]) is Ok by {
            assert(results[j] is Ok);
        }
        lemma_all_started(fewer);
        assert(results[results.len() - 1] is Ok);
    }
}

/// A search in a project starts in every tree of it, in the files and directories that
/// the tree shows, and in no other; it is for the query that is asked for, with the limit
/// that is asked for. No two of the entries in it have one number.
pub proof fn law_every_tree_is_searched(
    search: PathSearch,
    trees: Map<TreeId, WorkTree>,
    needle: Seq<char>,
    max_results: usize,
    include_ignored: bool,
    id: TreeId,
)
    requires
        searches(search, trees, needle, max_results, include_ignored),
    ensures
        search.needle() == needle,
        search.max_results() == max_results,
        search.include_ignored() == include_ignored,
        search.status() is Pending,
        search.wf(),
        path_search::distinct_ids(search.top()),
        search.tree_ids().no_duplicates(),
        search.tree_ids().contains(id) <==> trees.contains_key(id),
        forall|i: int|
            0 <= i < search.roots().len() && search.tree_ids()[i] == id
                && work_tree::list_a_tree(trees[id]@.shown()) ==> work_tree::lines(
                work_tree::nodes((#[trigger] search.roots()[i]).children->0@),
                1,
            ) == work_tree::row_lines(trees[id]@.shown()),
{
    assert(search.tree_ids().contains(id) <==> search.tree_ids().to_set().contains(id));
    if search.roots().len() == 1 {
        let roots = search.roots();
        assert(roots.drop_last() =~= Seq::<fs::Entry>::empty());
        assert(path_search::entry_distinct_ids(roots.last()));
        assert(search.wf());
        assert(roots[0].children is Some);
    }
    assert forall|i: int|
        0 <= i < search.roots().len() && search.tree_ids()[i] == id && work_tree::list_a_tree(
            trees[id]@.shown(),
        ) implies work_tree::lines(
        work_tree::nodes((#[trigger] search.roots()[i]).children->0@),
        1,
    ) == work_tree::row_lines(trees[id]@.shown()) by {
        assert(is_root_of(search.roots()[i], trees[search.tree_ids()[i]]));
        work_tree::law_tree_lists_its_rows(trees[id]@.shown());
    }
}

} // verus!
