//! Opening and finding the files of a project.

use std::ops::Range;
use std::rc::Rc;

use xray::buffer::SelectionSet;
use xray::error::{Error, MemoError, RpcError};
use xray::fs::{FileStatus, FileType};
use xray::network::{NetworkProvider, Operation, OperationEnvelope};
use xray::path_search::{count_step, PathSearchStatus, Scoring};
use xray::point::Point;
use xray::project::{LocalProject, Project, ProjectService, RemoteProject, RpcResponse, TreeServices};
use xray::server::network::NetworkProvider as LocalNetworkProvider;
use xray::work_tree::{AppliedChange, Entry, OpenedFile, StartedTree, WorkTree};

fn row(depth: usize, name: &str, path: &str, file_type: FileType) -> Entry {
    Entry {
        file_type,
        depth,
        name: name.to_string(),
        path: path.to_string(),
        base_path: Some(path.to_string()),
        status: FileStatus::Unchanged,
        visible: true,
    }
}

fn dir(depth: usize, name: &str) -> Entry {
    row(depth, name, name, FileType::Directory)
}

fn file(depth: usize, name: &str) -> Entry {
    row(depth, name, name, FileType::Text)
}

fn tree(rows: Vec<Entry>) -> WorkTree {
    WorkTree::from_started(
        Some([0; 20]),
        StartedTree {
            rows,
            operations: Vec::new(),
        },
    )
}

fn opened(buffer_id: u64, text: &str) -> Result<OpenedFile, MemoError> {
    Ok(OpenedFile {
        buffer_id,
        text: text.encode_utf16().collect(),
    })
}

fn build_project() -> LocalProject {
    let tree_1 = tree(vec![
        dir(1, "subdir-a"),
        file(2, "file-1"),
        dir(2, "subdir-1"),
        file(3, "file-1"),
        file(3, "bar"),
    ]);
    let tree_2 = tree(vec![
        dir(1, "subdir-b"),
        dir(2, "subdir-2"),
        file(3, "file-3"),
        file(3, "foo"),
    ]);
    LocalProject::new(vec![tree_1, tree_2])
}

/// Takes each character at the first place that is left for it, and ranks paths
/// in which they lie close together higher.
fn score(needle: &str, components: &Vec<Vec<char>>) -> Scoring {
    let chars: Vec<char> = components.concat();
    let mut positions = Vec::new();
    let mut from = 0;
    for c in needle.chars() {
        let at = from + chars[from..].iter().position(|other| *other == c).unwrap();
        positions.push(at);
        from = at + 1;
    }
    Scoring {
        score: 1000 - (positions[positions.len() - 1] - positions[0]) as u64,
        positions,
    }
}

fn summarize_results(
    results: &PathSearchStatus,
) -> Option<Vec<(usize, String, String, Vec<usize>)>> {
    match results {
        &PathSearchStatus::Pending => None,
        &PathSearchStatus::Ready(ref results) => {
            let summary = results
                .iter()
                .map(|result| {
                    let tree_id = result.tree_id;
                    let relative_path = result.relative_path.join("/");
                    let display_path = result.display_path.clone();
                    let positions = result.positions.clone();
                    (tree_id, relative_path, display_path, positions)
                })
                .collect();
            Some(summary)
        }
    }
}

#[test]
fn test_open_same_path_concurrently() -> Result<(), Error> {
    let mut project = build_project();

    let tree_id = 0;

    // The file at "subdir-a/subdir-1/bar".
    let buffer_1 = project.open_path(tree_id, opened(0, "abc"))?;
    let buffer_2 = project.open_path(tree_id, opened(0, "abc"))?;
    assert!(Rc::ptr_eq(&buffer_1, &buffer_2));

    Ok(())
}

#[test]
fn test_drop_buffer_rc() -> Result<(), Error> {
    let mut project = build_project();

    let tree_id = 0;
    let text = |project: &LocalProject, id: u64| {
        project
            .tree(tree_id)
            .unwrap()
            .buffer(id)
            .unwrap()
            .to_string()
    };

    // The file at "subdir-a/subdir-1/bar".
    let buffer_1 = project.open_path(tree_id, opened(0, "abc"))?;
    project
        .tree_mut(tree_id)
        .unwrap()
        .buffer_mut(buffer_1.id)
        .unwrap()
        .edit(vec![0..3], "memory")?;
    let buffer_2 = project.open_path(tree_id, opened(0, "abc"))?;
    assert_eq!(text(&project, buffer_2.id), "memory");

    // Dropping only one of the two strong references does not release the buffer.
    drop(buffer_2);
    let buffer_3 = project.open_path(tree_id, opened(0, "abc"))?;
    assert_eq!(text(&project, buffer_3.id), "memory");

    // Dropping all strong references causes the buffer to be released.
    drop(buffer_1);
    drop(buffer_3);
    let buffer_4 = project.open_path(tree_id, opened(0, "abc"))?;
    assert_eq!(text(&project, buffer_4.id), "memory");

    Ok(())
}

#[test]
fn test_search_one_tree() -> Result<(), Error> {
    let tree = tree(vec![
        dir(1, "root-1"),
        file(2, "file-1"),
        dir(2, "subdir-1"),
        file(3, "file-1"),
        file(3, "file-2"),
        dir(1, "root-2"),
        dir(2, "subdir-2"),
        file(3, "file-3"),
        file(3, "file-4"),
    ]);

    let project = LocalProject::new(vec![tree]);
    let mut search = project.search_paths("sub2", 10, true);
    let _observer = search.observe();
    assert_eq!(summarize_results(search.get_status()), None);

    assert_eq!(search.poll(&|components| score("sub2", components)), Ok(()));
    assert_eq!(
        summarize_results(search.get_status()),
        Some(vec![
            (
                0,
                "root-2/subdir-2/file-3".to_string(),
                "root-2/subdir-2/file-3".to_string(),
                vec![7, 8, 9, 14],
            ),
            (
                0,
                "root-2/subdir-2/file-4".to_string(),
                "root-2/subdir-2/file-4".to_string(),
                vec![7, 8, 9, 14],
            ),
            (
                0,
                "root-1/subdir-1/file-2".to_string(),
                "root-1/subdir-1/file-2".to_string(),
                vec![7, 8, 9, 21],
            ),
        ])
    );

    Ok(())
}

#[test]
fn search_in_several_trees_starts_with_the_roots() {
    let project = build_project();
    let mut search = project.search_paths("foo", 10, true);
    assert_eq!(search.poll(&|components| score("foo", components)), Ok(()));
    assert_eq!(
        summarize_results(search.get_status()),
        Some(vec![(
            1,
            "subdir-b/subdir-2/foo".to_string(),
            "//subdir-b/subdir-2/foo".to_string(),
            vec![20, 21, 22],
        )])
    );
}

#[test]
fn search_with_an_empty_needle_finds_nothing() {
    let project = build_project();
    let mut search = project.search_paths("", 0, true);
    assert_eq!(search.poll(&|components| score("", components)), Ok(()));
    assert_eq!(summarize_results(search.get_status()), Some(vec![]));
}

#[test]
fn search_keeps_the_best_results() {
    let project = LocalProject::new(vec![tree(vec![
        file(1, "axxb"),
        file(1, "ab"),
        file(1, "axb"),
        file(1, "ba"),
        file(1, "a.b"),
    ])]);
    let mut search = project.search_paths("ab", 2, false);
    assert_eq!(search.poll(&|components| score("ab", components)), Ok(()));
    let found: Vec<String> = match search.get_status() {
        PathSearchStatus::Ready(results) => {
            results.iter().map(|r| r.display_path.clone()).collect()
        }
        PathSearchStatus::Pending => panic!("not ready"),
    };
    assert_eq!(found, vec!["ab".to_string(), "axb".to_string()]);
}

#[test]
fn search_leaves_ignored_entries_out() {
    let hidden = |entry: Entry| Entry {
        visible: false,
        ..entry
    };
    let rows = || {
        vec![
            dir(1, "abc"),
            hidden(file(2, "x")),
            file(2, "y"),
            hidden(file(1, "abc.txt")),
        ]
    };
    let names = |include_ignored: bool| -> Vec<String> {
        let project = LocalProject::new(vec![tree(rows())]);
        let mut search = project.search_paths("abc", 10, include_ignored);
        assert_eq!(search.poll(&|components| score("abc", components)), Ok(()));
        match search.get_status() {
            PathSearchStatus::Ready(results) => {
                results.iter().map(|r| r.display_path.clone()).collect()
            }
            PathSearchStatus::Pending => panic!("not ready"),
        }
    };
    assert_eq!(names(false), vec!["abc/y".to_string()]);
    // An ignored file is found where the directory that it is in matches, and not
    // by its own name.
    assert_eq!(names(true), vec!["abc/x".to_string(), "abc/y".to_string()]);
}

#[test]
fn search_that_nobody_wants_is_given_up() {
    let rows: Vec<Entry> = (0..1200).map(|i| file(1, &format!("file-{}", i))).collect();
    let project = LocalProject::new(vec![tree(rows)]);

    let mut search = project.search_paths("file", 5, false);
    let observer = search.observe();
    assert_eq!(search.poll(&|components| score("file", components)), Ok(()));
    drop(observer);

    let mut search = project.search_paths("file", 5, false);
    assert_eq!(search.poll(&|components| score("file", components)), Err(()));
    assert_eq!(summarize_results(search.get_status()), None);
}

#[test]
fn steps_are_counted_in_intervals() {
    let mut steps = 8;
    assert_eq!(count_step(&mut steps, 10, false), Ok(()));
    assert_eq!(steps, 9);
    assert_eq!(count_step(&mut steps, 10, true), Ok(()));
    assert_eq!(steps, 0);
    steps = 9;
    assert_eq!(count_step(&mut steps, 10, false), Err(()));
    assert_eq!(steps, 10);
    // Past the end of an interval, steps are just counted.
    assert_eq!(count_step(&mut steps, 10, false), Ok(()));
    assert_eq!(steps, 11);

    let project = LocalProject::new(vec![tree(vec![file(1, "a")])]);
    let search = project.search_paths("a", 1, false);
    let mut steps = 12;
    assert_eq!(search.check_cancellation(&mut steps, 5), Ok(()));
    assert_eq!(steps, 13);
    assert_eq!(search.check_cancellation(&mut steps, 14), Err(()));
    assert_eq!(steps, 14);
    let observer = search.observe();
    assert_eq!(search.check_cancellation(&mut steps, 15), Ok(()));
    assert_eq!(steps, 0);
    drop(observer);
}

#[test]
fn smaller_limit_gives_the_first_results() {
    let names = vec!["axb", "ab", "axxb", "abx", "axbx", "c"];
    let results = |max_results: usize| -> Vec<(u64, String)> {
        let rows = names.iter().map(|name| file(1, name)).collect();
        let project = LocalProject::new(vec![tree(rows)]);
        let search = project.search_paths("ab", max_results, false);
        let matches = search.find_matches().unwrap();
        let results = search.rank_matches(&matches, &|components| score("ab", components));
        results
            .unwrap()
            .into_iter()
            .map(|result| (result.score, result.display_path))
            .collect()
    };
    let all = results(usize::MAX);
    let expected = vec![(999, "ab"), (999, "abx"), (998, "axb"), (998, "axbx"), (997, "axxb")];
    let expected: Vec<(u64, String)> = expected
        .into_iter()
        .map(|(score, path)| (score, path.to_string()))
        .collect();
    assert_eq!(all, expected);
    for max_results in 1..7 {
        assert_eq!(results(max_results)[..], all[..max_results.min(all.len())]);
    }
}

#[test]
fn results_with_higher_scores_come_first() {
    let project = LocalProject::new(vec![tree(vec![file(1, "ab"), file(1, "axb")])]);
    let mut search = project.search_paths("ab", 10, false);
    assert_eq!(search.poll(&|components| score("ab", components)), Ok(()));
    match search.get_status() {
        PathSearchStatus::Ready(results) => {
            assert!(results[0].score > results[1].score);
            assert!(results[0] < results[1]);
        }
        PathSearchStatus::Pending => panic!("not ready"),
    }
}

fn oid(number: u8) -> [u8; 20] {
    let mut oid = [0; 20];
    oid[0] = number;
    oid
}

/// The listing of files and directories, by their paths.
fn listing(paths: &Vec<(&str, FileType)>) -> Vec<Entry> {
    paths
        .iter()
        .map(|(path, file_type)| {
            let names: Vec<&str> = path.split('/').collect();
            row(names.len(), names[names.len() - 1], path, *file_type)
        })
        .collect()
}

fn change(paths: &Vec<(&str, FileType)>) -> Result<AppliedChange, MemoError> {
    Ok(AppliedChange {
        envelope: OperationEnvelope {
            epoch_head: Some(oid(0)),
            operation: Operation { payload: vec![1] },
        },
        rows: listing(paths),
        texts: Vec::new(),
    })
}

fn new_sync(
    base: [u8; 20],
    paths: &Vec<(&str, FileType)>,
    network: &mut LocalNetworkProvider,
) -> Result<WorkTree, Error> {
    let start = |_: Vec<Operation>| {
        Ok(StartedTree {
            rows: listing(paths),
            operations: Vec::new(),
        })
    };
    WorkTree::new(Some(base), network, start).map(|(tree, _)| tree)
}

#[test]
fn basic_api_interaction() -> Result<(), Error> {
    let directory = FileType::Directory;
    let text_file = FileType::Text;
    let oid_0 = oid(0);
    let oid_1 = oid(1);
    let commit_0 = vec![
        ("a", directory),
        ("a/b", directory),
        ("a/b/c", text_file),
        ("a/b/d", directory),
    ];
    let commit_1 = vec![("a", directory), ("a/b", directory), ("a/b/c", text_file)];
    let units = |text: &str| -> Vec<u16> { text.encode_utf16().collect() };
    let text = |tree: &WorkTree, id: u64| tree.buffer(id).unwrap().to_string();

    let mut network = LocalNetworkProvider::new("test".to_string());
    let mut tree1 = new_sync(oid_0, &commit_0, &mut network)?;
    let mut tree2 = new_sync(oid_0, &commit_0, &mut network)?;

    assert_eq!(tree1.head(), Some(oid_0));
    assert_eq!(tree2.head(), Some(oid_0));

    let mut paths1 = commit_0.clone();
    paths1.push(("e", text_file));
    tree1.create_file(change(&paths1))?;
    let mut paths2 = commit_0.clone();
    paths2.push(("f", text_file));
    tree2.create_file(change(&paths2))?;
    assert!(tree1.path_exists(&"e".to_string()));
    assert!(tree2.path_exists(&"f".to_string()));

    // ## Open Text File
    let tree1_buffer_c = tree1.open_text_file(opened(0, "oid0 base text"))?;
    assert_eq!(text(&tree1, tree1_buffer_c.id), String::from("oid0 base text"));

    let tree2_buffer_c = tree1.open_text_file(opened(0, "oid0 base text"))?;
    assert_eq!(text(&tree1, tree2_buffer_c.id), String::from("oid0 base text"));
    assert!(Rc::ptr_eq(&tree1_buffer_c, &tree2_buffer_c));

    // ## Edit
    tree1.buffer_mut(tree1_buffer_c.id).unwrap().edit_2d(
        vec![
            Point::new(0, 4)..Point::new(0, 5),
            Point::new(0, 9)..Point::new(0, 10),
        ],
        "-",
    )?;

    assert_eq!(text(&tree1, tree1_buffer_c.id), String::from("oid0-base-text"));
    assert_eq!(text(&tree1, tree2_buffer_c.id), String::from("oid0-base-text"));

    paths1.push(("x", directory));
    tree1.create_file(change(&paths1))?;
    paths1.push(("x/y", directory));
    tree1.create_file(change(&paths1))?;
    paths1.truncate(4);
    paths1.extend(vec![("a/b/x", directory), ("a/b/x/y", directory), ("e", text_file)]);
    tree1.rename(change(&paths1))?;
    paths1.remove(3);
    tree1.remove(change(&paths1))?;

    assert!(tree1.path_exists(&"a/b/x".to_string()));
    assert!(!tree1.path_exists(&"a/b/d".to_string()));

    tree1.reset(
        Some(oid_1),
        listing(&commit_1),
        vec![(0, units("oid1 base text"))],
        Vec::new(),
    );
    tree2.reset(Some(oid_1), listing(&commit_1), Vec::new(), Vec::new());

    assert_eq!(tree1.head(), Some(oid_1));
    assert_eq!(tree2.head(), Some(oid_1));

    assert_eq!(text(&tree1, tree1_buffer_c.id), String::from("oid1 base text"));
    assert_eq!(text(&tree1, tree2_buffer_c.id), String::from("oid1 base text"));

    tree1.remove(change(&vec![("a", directory), ("a/b", directory)])).unwrap();
    assert!(!tree1.path_exists(&"a/b/c".to_string()));

    tree1.reset(None, Vec::new(), Vec::new(), Vec::new());
    assert_eq!(tree1.head(), None);

    // What was told reaches everyone on the network, in order.
    assert_eq!(tree1.flush(&mut network), Ok(()));
    assert_eq!(tree2.flush(&mut network), Ok(()));
    assert_eq!(network.fetch()?.len(), 7);

    Ok(())
}

#[test]
fn base_path() -> Result<(), Error> {
    let directory = FileType::Directory;
    let text_file = FileType::Text;
    let oid_0 = oid(0);
    let mut paths = vec![
        ("a", directory),
        ("a/b", directory),
        ("a/b/c", text_file),
        ("a/b/d", directory),
    ];
    let mut network = LocalNetworkProvider::new("test".to_string());
    let mut tree = new_sync(oid_0, &paths, &mut network)?;

    paths.remove(2);
    paths.push(("e", text_file));
    tree.rename(change(&paths))?;
    paths.remove(2);
    tree.remove(change(&paths))?;
    paths.push(("f", text_file));
    tree.create_file(change(&paths))?;

    let listed: Vec<String> = tree
        .entries(&None, None)
        .into_iter()
        .map(|entry| entry.path)
        .collect();
    assert_eq!(listed, vec!["a", "a/b", "e", "f"]);
    assert_eq!(tree.take_outgoing().len(), 3);

    Ok(())
}

#[test]
fn selections() -> Result<(), Error> {
    let oid_0 = oid(0);
    let mut network = LocalNetworkProvider::new("test".to_string());
    let mut tree1 = new_sync(oid_0, &vec![("a", FileType::Text)], &mut network)?;
    let mut tree2 = new_sync(oid_0, &vec![("a", FileType::Text)], &mut network)?;

    let handle1 = tree1.open_text_file(opened(0, "abc"))?;
    let handle2 = tree2.open_text_file(opened(0, "abc"))?;
    let buffer1 = tree1.buffer_mut(handle1.id).unwrap();
    let buffer2 = tree2.buffer_mut(handle2.id).unwrap();

    let find = |sets: &Vec<SelectionSet>, id: u64| -> Vec<Range<Point>> {
        sets.iter().find(|set| set.id == id).unwrap().ranges.clone()
    };

    let buffer1_ranges = vec![Point::zero()..Point::new(0, 1)];
    let set = buffer1.add_selection_set(buffer1_ranges.clone())?;

    let selection_ranges1 = buffer1.selection_ranges()?;
    assert_eq!(find(&selection_ranges1.local, set), buffer1_ranges);
    assert!(selection_ranges1.remote.is_empty());

    let selection_ranges2 = buffer2.selection_ranges()?;
    assert!(selection_ranges2.local.is_empty());
    assert!(selection_ranges2.remote.is_empty());

    let buffer1_ranges_new = vec![Point::new(0, 2)..Point::new(0, 3)];
    buffer1.replace_selection_set(set, buffer1_ranges_new.clone())?;

    let selection_ranges1 = buffer1.selection_ranges()?;
    assert_eq!(find(&selection_ranges1.local, set), buffer1_ranges_new);
    assert!(selection_ranges1.remote.is_empty());

    let selection_ranges2 = buffer2.selection_ranges()?;
    assert!(selection_ranges2.local.is_empty());
    assert!(selection_ranges2.remote.is_empty());

    buffer1.remove_selection_set(set)?;
    let selection_ranges1 = buffer1.selection_ranges()?;
    assert!(selection_ranges1.local.is_empty());
    assert!(selection_ranges1.remote.is_empty());

    let selection_ranges2 = buffer2.selection_ranges()?;
    assert!(selection_ranges2.local.is_empty());
    assert!(selection_ranges2.remote.is_empty());

    Ok(())
}

#[test]
fn dropped_handles_are_not_handed_out_again() -> Result<(), Error> {
    let mut project = build_project();
    let first = project.open_path(0, opened(7, "abc"))?;
    assert_eq!(Rc::strong_count(&first), 1);
    let weak = Rc::downgrade(&first);
    drop(first);
    assert!(weak.upgrade().is_none());
    let second = project.open_path(0, opened(7, "abc"))?;
    assert_eq!(second.id, 7);
    assert_eq!(Rc::strong_count(&second), 1);
    let third = project.open_path(0, opened(7, "abc"))?;
    assert!(Rc::ptr_eq(&second, &third));
    Ok(())
}

#[test]
fn file_that_cannot_be_opened_changes_nothing() {
    let mut project = build_project();
    let error = project.open_path(1, Err(MemoError::InvalidPath)).unwrap_err();
    assert_eq!(error, Error::Memo(MemoError::InvalidPath));
    assert!(project.tree(1).unwrap().buffer(0).is_none());
    assert!(project.tree(2).is_none());
}

#[test]
fn remote_project_opens_a_file_at_both_ends() {
    let mut project = RemoteProject::new(vec![(3, tree(vec![file(1, "a")]))]);
    let broken = || RpcError::IoError("broken".to_string());

    let error = project.open_path(3, Err(broken()), opened(0, "w")).unwrap_err();
    assert_eq!(error, Error::Rpc(broken()));
    assert!(project.tree(3).unwrap().buffer(0).is_none());
    let error = project
        .open_path(3, Ok(RpcResponse::OpenedBuffer(Err(broken()))), opened(0, "x"))
        .unwrap_err();
    assert_eq!(error, Error::Rpc(broken()));
    let error = project
        .open_path(
            3,
            Ok(RpcResponse::OpenedBuffer(Ok(9))),
            Err(MemoError::InvalidPath),
        )
        .unwrap_err();
    assert_eq!(error, Error::Memo(MemoError::InvalidPath));

    let handle = project
        .open_path(3, Ok(RpcResponse::OpenedBuffer(Ok(9))), opened(0, "y"))
        .unwrap();
    assert_eq!(handle.id, 0);
    // The buffer was opened before, with another text.
    let buffer = project.tree(3).unwrap().buffer(0).unwrap();
    assert_eq!(buffer.to_string(), "x");

    let mut search = project.search_paths("a", 1, false);
    assert_eq!(search.poll(&|components| score("a", components)), Ok(()));
    assert_eq!(
        summarize_results(search.get_status()),
        Some(vec![(3, "a".to_string(), "a".to_string(), vec![0])])
    );
}

#[test]
fn remote_project_has_all_trees_or_none() {
    let trees = || {
        vec![
            Ok((3, tree(vec![file(1, "a")]))),
            Ok((5, tree(vec![file(1, "b"), file(1, "c")]))),
        ]
    };
    let project = match RemoteProject::from_results(trees()) {
        Ok(project) => project,
        Err(_) => panic!("no project"),
    };
    assert_eq!(project.tree(3).unwrap().len(), 1);
    assert_eq!(project.tree(5).unwrap().len(), 2);
    assert!(project.tree(4).is_none());

    let mut results = trees();
    results.push(Err(Error::Memo(MemoError::InvalidPath)));
    results.push(Err(Error::Memo(MemoError::InvalidOperation)));
    match RemoteProject::from_results(results) {
        Ok(_) => panic!("a tree that could not be started"),
        Err(error) => assert_eq!(error, Error::Memo(MemoError::InvalidPath)),
    }
}

#[test]
fn project_service_tells_of_each_tree() {
    let project = build_project();
    let mut service = ProjectService::new();
    let state = service.init(
        &project,
        &vec![
            TreeServices {
                tree_id: 0,
                git_service_id: 10,
                network_service_id: 11,
            },
            TreeServices {
                tree_id: 1,
                git_service_id: 12,
                network_service_id: 13,
            },
        ],
    );
    assert_eq!(state.trees.len(), 2);
    assert_eq!(state.trees[&0], (10, 11));
    assert_eq!(state.trees[&1], (12, 13));
    assert_eq!(state.oids[&0], Some([0; 20]));

    let mut trees = RemoteProject::trees_to_open(&state);
    trees.sort_by_key(|tree| tree.services.tree_id);
    assert_eq!(trees.len(), 2);
    assert_eq!(trees[0].services.git_service_id, 10);
    assert_eq!(trees[1].services.network_service_id, 13);
    assert_eq!(trees[1].oid, Some([0; 20]));
    let started = StartedTree {
        rows: vec![file(1, "a")],
        operations: Vec::new(),
    };
    let (tree_id, tree) = RemoteProject::create_work_tree(trees[1], Ok(started)).unwrap();
    assert_eq!(tree_id, 1);
    assert_eq!(tree.head(), Some([0; 20]));
    assert_eq!(tree.len(), 1);
    let error = Error::Memo(MemoError::InvalidOperation);
    match RemoteProject::create_work_tree(trees[0], Err(error)) {
        Err(error) => assert_eq!(error, Error::Memo(MemoError::InvalidOperation)),
        Ok(_) => panic!("a tree that could not be started"),
    }

    let mut project = build_project();
    let request = RemoteProject::open_request(1, "subdir-b/foo".to_string());
    let response = service.request(&mut project, request, |tree_id, path| {
        assert_eq!((tree_id, path.as_str()), (1, "subdir-b/foo"));
        opened(6, "abc")
    });
    match response {
        RpcResponse::OpenedBuffer(result) => assert_eq!(result, Ok(6)),
    }
    assert_eq!(
        project.tree(1).unwrap().buffer(6).unwrap().to_string(),
        "abc"
    );

    let handle = Rc::new(xray::work_tree::BufferHandle { id: 5 });
    match ProjectService::opened_buffer(Ok(handle)) {
        RpcResponse::OpenedBuffer(result) => assert_eq!(result, Ok(5)),
    }
    match ProjectService::opened_buffer(Err(Error::Memo(MemoError::InvalidPath))) {
        RpcResponse::OpenedBuffer(result) => assert_eq!(
            result,
            Err(RpcError::IoError("Err".to_string()))
        ),
    }
}

#[test]
fn removed_paths_do_not_exist() {
    let mut gone = file(1, "b");
    gone.status = FileStatus::Removed;
    let tree = tree(vec![file(1, "a"), gone]);
    assert!(tree.path_exists(&"a".to_string()));
    assert!(!tree.path_exists(&"b".to_string()));
    assert!(!tree.path_exists(&"c".to_string()));
}

#[test]
fn listing_leaves_out_what_is_removed_or_not_asked_for() {
    let removed = |entry: Entry| Entry {
        status: FileStatus::Removed,
        ..entry
    };
    let tree = tree(vec![
        row(1, "a", "a", FileType::Directory),
        row(2, "b", "a/b", FileType::Directory),
        row(3, "c", "a/b/c", FileType::Text),
        removed(row(1, "d", "d", FileType::Directory)),
        row(2, "e", "d/e", FileType::Text),
        row(1, "f", "f", FileType::Text),
    ]);
    let paths = |entries: Vec<Entry>| -> Vec<String> {
        entries.iter().map(|entry| entry.path.clone()).collect()
    };
    assert_eq!(
        paths(tree.entries(&None, None)),
        vec!["a", "a/b", "a/b/c", "f"]
    );
    assert_eq!(
        paths(tree.entries(&None, Some(true))),
        vec!["a", "a/b", "a/b/c", "d", "d/e", "f"]
    );
    assert_eq!(
        paths(tree.entries(&Some(vec!["a".to_string()]), Some(false))),
        vec!["a", "a/b", "f"]
    );
    assert_eq!(paths(tree.entries(&Some(vec![]), Some(true))), vec!["a", "d", "f"]);

    let root = tree.root(100);
    assert_eq!(root.name(), "/");
    assert_eq!(root.id(), 100);
    let children = root.children().unwrap();
    assert_eq!(children.len(), 2);
    assert_eq!(children[0].name_chars(), vec!['a', '/']);
    assert_eq!(children[0].children().unwrap()[0].children().unwrap()[0].name(), "c");
    assert_eq!(children[1].name_chars(), vec!['f']);
    assert_eq!(children[1].id(), 104);
}
