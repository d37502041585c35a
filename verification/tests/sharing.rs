//! Operations, applications, sessions and commits.

use std::cell::Cell;
use std::rc::Rc;

use futures::executor;
use futures::unsync::mpsc::{UnboundedReceiver, UnboundedSender};

use xray::app::{
    App, AppService, Command, Peer, PeerList, ServiceError, ServiceRequest, ServiceResponse,
    ServiceState, WorkspaceEntry, WorkspaceOpenError,
};
use xray::buffer::Buffer;
use xray::error::{Error, MemoError, RpcError};
use xray::fs::{FileStatus, FileType};
use xray::git;
use xray::network::{
    NetworkNotify, NetworkProvider, NetworkProviderService, Operation, OperationEnvelope,
    RemoteNetworkProvider, RpcRequest, RpcResponse, RpcUpdate,
};
use xray::project::RemoteProject;
use xray::server::cache::Cache;
use xray::server::database::Database;
use xray::server::git::{visit_dirs, GitEntry, GitObject};
use xray::server::network::NetworkProvider as LocalNetworkProvider;
use xray::server::session::{self, AppStep, Connection, IncomingMessage, OutgoingMessage, Role};
use xray::storage::Storage;
use xray::views::buffer::{BufferView, BufferViewDelegate};
use xray::views::workspace::{WorkspaceView, WorkspaceViewAction};
use xray::work_tree::{AppliedChange, Entry, OpenedFile, StartedTree, WorkTree};
use xray::workspace::{RemoteWorkspace, Workspace, WorkspaceService};

fn operation(byte: u8) -> Operation {
    Operation {
        payload: vec![byte],
    }
}

fn envelope(byte: u8) -> OperationEnvelope {
    OperationEnvelope {
        epoch_head: None,
        operation: operation(byte),
    }
}

fn payloads(operations: Vec<Operation>) -> Vec<u8> {
    operations
        .iter()
        .map(|operation| operation.payload[0])
        .collect()
}

/// What is left in a channel that nobody sends into any more.
fn drain<T>(receiver: UnboundedReceiver<T>) -> Vec<T> {
    let mut spawned = executor::spawn(receiver);
    let mut items = Vec::new();
    while let Some(item) = spawned.wait_stream() {
        items.push(item.unwrap());
    }
    items
}

fn error_text(message: OutgoingMessage) -> String {
    match message {
        OutgoingMessage::Error { description } => description,
        _ => panic!("no error"),
    }
}

fn work_tree(names: Vec<&str>) -> WorkTree {
    let rows = names
        .into_iter()
        .map(|name| Entry {
            file_type: FileType::Text,
            depth: 1,
            name: name.to_string(),
            path: name.to_string(),
            base_path: None,
            status: FileStatus::New,
            visible: true,
        })
        .collect();
    WorkTree::from_started(
        None,
        StartedTree {
            rows,
            operations: vec![envelope(7)],
        },
    )
}

#[test]
fn operations_reach_everyone_who_listens() {
    let mut notify = NetworkNotify::new();
    let first = notify.updates();
    let second = notify.updates();
    notify.broadcast_op(operation(1));
    drop(second);
    let third = notify.updates();
    notify.broadcast_op(operation(2));
    notify.broadcast_op(operation(3));
    drop(notify);
    assert_eq!(payloads(drain(first)), vec![1, 2, 3]);
    assert_eq!(payloads(drain(third)), vec![2, 3]);
}

#[test]
fn those_who_are_gone_are_dropped() {
    let mut notify = NetworkNotify::new();
    let receivers: Vec<UnboundedReceiver<Operation>> = (0..4).map(|_| notify.updates()).collect();
    // They are handed the operation from the last to the first.
    let closed = vec![true, false, false, true];
    let count = Cell::new(4);
    let operation_8 = operation(8);
    let send = |_: &UnboundedSender<Operation>, copy: Operation| {
        assert_eq!(copy.payload, vec![8]);
        count.set(count.get() - 1);
        !closed[count.get()]
    };
    notify.broadcast_with(&operation_8, &send);
    assert_eq!(count.get(), 0);
    notify.broadcast_op(operation(9));
    drop(notify);
    let told: Vec<usize> = receivers
        .into_iter()
        .map(|receiver| drain(receiver).len())
        .collect();
    assert_eq!(told, vec![0, 1, 1, 0]);
}

#[test]
fn provider_keeps_and_tells_operations() {
    let mut provider = LocalNetworkProvider::new("/a".to_string());
    assert_eq!(provider.path(), "/a");
    assert_eq!(provider.broadcast(vec![envelope(1)]), Ok(()));
    let updates = provider.updates();
    assert_eq!(provider.broadcast(vec![envelope(2), envelope(3)]), Ok(()));
    assert_eq!(payloads(provider.fetch().unwrap()), vec![1, 2, 3]);
    drop(provider);
    assert_eq!(payloads(drain(updates)), vec![2, 3]);
}

#[test]
fn tree_is_not_started_without_what_was_told() {
    let broken = || Error::Rpc(RpcError::IoError("broken".to_string()));
    match WorkTree::from_fetched(None, Err(broken()), |_| panic!("not to be started")) {
        Err(error) => assert_eq!(error, broken()),
        Ok(_) => panic!("a tree without what was told"),
    }
    let start = |operations: Vec<Operation>| {
        Ok(StartedTree {
            rows: vec![entry("a")],
            operations: operations
                .into_iter()
                .map(|operation| OperationEnvelope {
                    epoch_head: None,
                    operation,
                })
                .collect(),
        })
    };
    let fetched = Ok(vec![operation(1), operation(2)]);
    let mut tree = WorkTree::from_fetched(Some([3; 20]), fetched, start).unwrap_or_else(|_| panic!());
    assert_eq!(tree.head(), Some([3; 20]));
    assert_eq!(tree.len(), 1);
    assert_eq!(tree.take_outgoing().len(), 2);
}

#[test]
fn provider_is_served_to_clients() {
    let mut service = NetworkProviderService::new(LocalNetworkProvider::new("/a".to_string()));
    assert!(service.request(RpcRequest::Broadcast(Vec::new())).is_none());
    let request = RemoteNetworkProvider::broadcast(vec![envelope(4), envelope(5)]);
    let response = service.request(request).unwrap().unwrap();
    assert!(matches!(response, RpcResponse::Broadcasted));
    assert_eq!(RemoteNetworkProvider::broadcasted(Ok(response)), Ok(()));
    let response = service.request(RpcRequest::Fetch).unwrap().unwrap();
    let operations = RemoteNetworkProvider::fetched(Ok(response)).unwrap();
    assert_eq!(payloads(operations), vec![4, 5]);
    let broken = || RpcError::IoError("broken".to_string());
    assert_eq!(
        RemoteNetworkProvider::broadcasted(Err(broken())),
        Err(Error::Rpc(broken()))
    );
    assert!(RemoteNetworkProvider::fetched(Err(broken())).is_err());

    let mut remote = RemoteNetworkProvider::new();
    let updates = remote.updates();
    let outgoing = NetworkProviderService::<LocalNetworkProvider>::outgoing_op(Some(operation(6)));
    remote.update(outgoing.unwrap());
    remote.update(RpcUpdate::Operation(operation(7)));
    drop(remote);
    assert_eq!(payloads(drain(updates)), vec![6, 7]);
    assert!(NetworkProviderService::<LocalNetworkProvider>::outgoing_op(None).is_none());
}

#[test]
fn database_passes_operations_on_to_others() {
    let mut database = Database::new();
    database.add_tree(1, "one");
    database.add_tree(2, "two");
    database.add_tree(3, "three");
    let delivery = database.broadcast(2, &vec![envelope(1), envelope(2)]);
    let mut replica_ids = delivery.replica_ids;
    replica_ids.sort();
    assert_eq!(replica_ids, vec![1, 3]);
    assert_eq!(payloads(delivery.operations), vec![1, 2]);
    assert!(database.broadcast(2, &Vec::new()).replica_ids.is_empty());
    assert_eq!(payloads(database.fetch()), vec![1, 2]);
    assert_eq!(database.tree(3), Some(&"three"));
    assert_eq!(database.tree(4), None);
}

#[test]
fn cache_makes_a_value_once() {
    let mut cache = Cache::new();
    assert!(cache.get(&"/a".to_string()).is_none());
    assert_eq!(*cache.get_or_make("/a".to_string(), || 1), 1);
    assert_eq!(*cache.get_or_make("/b".to_string(), || 2), 2);
    assert_eq!(*cache.get_or_make("/a".to_string(), || 3), 1);
    assert_eq!(*cache.get(&"/b".to_string()).unwrap(), 2);
    let made = cache.get(&"/a".to_string()).unwrap();
    let again = cache.get_or_make("/a".to_string(), || 4);
    assert!(Rc::ptr_eq(&made, &again));
    // The cache keeps one owner of a value, however often it is asked for.
    assert_eq!(Rc::strong_count(&made), 3);
}

fn entry(name: &str) -> Entry {
    Entry {
        file_type: FileType::Text,
        depth: 1,
        name: name.to_string(),
        path: name.to_string(),
        base_path: None,
        status: FileStatus::New,
        visible: true,
    }
}

fn applied(byte: u8, names: Vec<&str>, texts: Vec<(u64, &str)>) -> Result<AppliedChange, MemoError> {
    Ok(AppliedChange {
        envelope: envelope(byte),
        rows: names.into_iter().map(entry).collect(),
        texts: given(texts),
    })
}

fn given(texts: Vec<(u64, &str)>) -> Vec<(u64, Vec<u16>)> {
    texts
        .into_iter()
        .map(|(id, text)| (id, text.encode_utf16().collect()))
        .collect()
}

#[test]
fn tree_tells_what_it_does() {
    let mut tree = work_tree(vec!["a"]);
    let names = |tree: &WorkTree| -> Vec<String> {
        let entries = tree.entries(&None, None);
        entries.into_iter().map(|entry| entry.name).collect()
    };
    let text = |tree: &WorkTree, id: u64| tree.buffer(id).unwrap().to_string();
    for id in 0..2 {
        let opened = OpenedFile {
            buffer_id: id,
            text: vec![0x61],
        };
        assert_eq!(tree.open_text_file(Ok(opened)).unwrap().id, id);
    }
    let observer = tree.buffer_mut(0).unwrap().updates();

    tree.create_file(applied(8, vec!["a", "b"], vec![])).unwrap();
    assert_eq!(names(&tree), vec!["a", "b"]);
    assert!(!tree.buffer_mut(0).unwrap().poll_update(observer));
    tree.rename(applied(9, vec!["a", "c"], vec![(1, "x")])).unwrap();
    assert_eq!(names(&tree), vec!["a", "c"]);
    assert_eq!((text(&tree, 0), text(&tree, 1)), ("a".to_string(), "x".to_string()));
    tree.remove(applied(10, vec!["a"], vec![])).unwrap();
    assert_eq!(names(&tree), vec!["a"]);
    assert_eq!(
        tree.remove(Err(MemoError::InvalidPath)),
        Err(Error::Memo(MemoError::InvalidPath))
    );
    assert_eq!(names(&tree), vec!["a"]);
    tree.set_active_location(Ok(envelope(11))).unwrap();
    // The last text that is given for a buffer stands; one that is not open has none.
    tree.apply_ops(
        vec![entry("d")],
        given(vec![(0, "y"), (0, "z"), (7, "w")]),
        vec![envelope(12)],
    );
    assert_eq!(names(&tree), vec!["d"]);
    assert_eq!((text(&tree, 0), text(&tree, 1)), ("z".to_string(), "x".to_string()));
    assert!(tree.buffer(7).is_none());
    assert!(tree.buffer_mut(0).unwrap().poll_update(observer));
    tree.reset(
        Some([1; 20]),
        vec![entry("e")],
        given(vec![(1, "v")]),
        vec![envelope(13)],
    );
    assert_eq!(tree.head(), Some([1; 20]));
    assert_eq!(names(&tree), vec!["e"]);
    assert_eq!((text(&tree, 0), text(&tree, 1)), ("z".to_string(), "v".to_string()));
    let told: Vec<u8> = tree
        .take_outgoing()
        .iter()
        .map(|envelope| envelope.operation.payload[0])
        .collect();
    assert_eq!(told, vec![7, 8, 9, 10, 11, 12, 13]);
    assert!(tree.take_outgoing().is_empty());
}

#[test]
fn tree_starts_from_what_was_told() {
    let mut provider = LocalNetworkProvider::new("/a".to_string());
    assert_eq!(provider.broadcast(vec![envelope(1)]), Ok(()));
    let (mut tree, updates) = WorkTree::new(Some([2; 20]), &mut provider, |operations| {
        assert_eq!(payloads(operations), vec![1]);
        Ok(StartedTree {
            rows: Vec::new(),
            operations: vec![envelope(2), envelope(3)],
        })
    })
    .unwrap();
    assert_eq!(tree.head(), Some([2; 20]));
    assert_eq!(payloads(provider.fetch().unwrap()), vec![1, 2, 3]);
    tree.create_file(applied(4, vec!["a"], vec![])).unwrap();
    assert_eq!(tree.flush(&mut provider), Ok(()));
    assert_eq!(payloads(provider.fetch().unwrap()), vec![1, 2, 3, 4]);
    assert!(tree.take_outgoing().is_empty());

    let error = Error::Memo(MemoError::InvalidOperation);
    match WorkTree::new(None, &mut provider, |_| Err(error)) {
        Err(error) => assert_eq!(error, Error::Memo(MemoError::InvalidOperation)),
        Ok(_) => panic!("a tree that could not be started"),
    }
    assert_eq!(payloads(provider.fetch().unwrap()), vec![1, 2, 3, 4]);
    drop(provider);
    // A tree hears of its own operations too.
    assert_eq!(payloads(drain(updates)), vec![2, 3, 4]);
}

#[test]
fn commits_are_served_to_clients() {
    let request = git::RemoteGitProvider::text_request([3; 20], "a/b".to_string());
    let response = git::GitProviderService::request(
        request,
        |_| panic!("not asked for"),
        |oid, path| format!("{}:{}", oid[0], path),
    );
    let text = git::RemoteGitProvider::base_text(Ok(response)).unwrap();
    assert_eq!(text, "3:a/b");
    let request = git::RemoteGitProvider::entries_request([0; 20]);
    let response = git::GitProviderService::request(
        request,
        |_| Vec::new(),
        |_, _| panic!("not asked for"),
    );
    let entries = git::RemoteGitProvider::base_entries(Ok(response)).unwrap();
    assert!(entries.is_empty());
    let broken = || RpcError::IoError("broken".to_string());
    assert_eq!(git::RemoteGitProvider::base_text(Err(broken())), Err(broken()));
}

#[test]
fn commit_and_tree_have_one_structure() {
    let blob = |name: &str| GitEntry {
        name: name.to_string(),
        object: GitObject::Blob,
    };
    let entries = vec![
        GitEntry {
            name: "a".to_string(),
            object: GitObject::Tree(vec![
                GitEntry {
                    name: "b".to_string(),
                    object: GitObject::Tree(vec![blob("c")]),
                },
                blob("d"),
            ]),
        },
        blob("e"),
    ];
    let listing = visit_dirs(&entries, 1);
    let rows: Vec<Entry> = listing
        .iter()
        .map(|entry| Entry {
            file_type: entry.file_type,
            depth: entry.depth,
            name: entry.name.clone(),
            path: entry.name.clone(),
            base_path: Some(entry.name.clone()),
            status: FileStatus::Unchanged,
            visible: true,
        })
        .collect();
    let depths: Vec<(usize, &str)> = rows
        .iter()
        .map(|row| (row.depth, row.name.as_str()))
        .collect();
    assert_eq!(depths, vec![(1, "a"), (2, "b"), (3, "c"), (2, "d"), (1, "e")]);
    let tree = WorkTree::from_started(
        None,
        StartedTree {
            rows,
            operations: Vec::new(),
        },
    );
    let root = tree.root(0);
    let top = root.children().unwrap();
    assert_eq!(top.len(), 2);
    let inner = top[0].children().unwrap();
    assert_eq!(inner[0].name(), "b");
    assert_eq!(inner[0].children().unwrap()[0].name(), "c");
    assert_eq!(inner[1].name(), "d");
    assert!(!inner[1].is_dir());
    assert_eq!(top[1].name(), "e");
}

#[test]
fn windows_are_announced() {
    let mut app: App<&str> = App::new(false);
    let commands = app.commands().unwrap();
    assert!(app.commands().is_none());
    assert_eq!(
        app.open_local_workspace(4, vec![work_tree(vec!["a"])], "first"),
        Some(0)
    );
    let mut spawned = executor::spawn(commands);
    assert_eq!(
        spawned.wait_stream(),
        Some(Ok(Command::OpenWindow(0)))
    );
    // Nobody listens any more, so commands can be asked for again.
    drop(spawned);
    assert_eq!(app.open_local_workspace(5, Vec::new(), "second"), Some(1));
    let mut spawned = executor::spawn(app.commands().unwrap());
    assert_eq!(
        spawned.wait_stream(),
        Some(Ok(Command::OpenWindow(1)))
    );
    assert_eq!(*app.start_window(&1).unwrap(), "second");
    assert_eq!(app.close_window(0), Ok(()));
    assert_eq!(app.close_window(0), Err(()));
    assert_eq!(**app.dispatch_action(1).unwrap(), *"second");
    assert!(app.start_window(&0).is_err());
    match app.workspace(0) {
        Some(WorkspaceEntry::Local(workspace)) => assert_eq!(workspace.replica_id(), 4),
        _ => panic!("a workspace on this machine"),
    }
    match app.workspace_mut(0) {
        Some(WorkspaceEntry::Local(workspace)) => {
            let tree = workspace.project_mut().tree_mut(0).unwrap();
            tree.reset(Some([6; 20]), Vec::new(), Vec::new(), Vec::new());
        }
        _ => panic!("a workspace on this machine"),
    }
    match app.workspace(0) {
        Some(WorkspaceEntry::Local(workspace)) => {
            assert_eq!(workspace.project().tree(0).unwrap().head(), Some([6; 20]));
        }
        _ => panic!("a workspace on this machine"),
    }
    assert!(app.workspace_mut(2).is_none());
}

#[test]
fn headless_application_has_no_windows() {
    let mut app: App<&str> = App::new(true);
    assert_eq!(app.open_local_workspace(4, Vec::new(), "window"), None);
    assert!(app.workspace(0).is_some());
    assert!(app.start_window(&0).is_err());
}

#[test]
fn peers_are_told_of_workspaces() {
    let mut app: App<()> = App::new(true);
    let service = AppService::new(&mut app);
    assert!(service.init(&app).workspace_ids.is_empty());
    assert!(service.poll_update(&mut app).is_none());
    app.open_local_workspace(1, Vec::new(), ());
    let remote = RemoteWorkspace::new(2, RemoteProject::new(Vec::new()));
    app.open_remote_workspace(remote, ());
    let mut told = service.poll_update(&mut app).unwrap().workspace_ids;
    told.sort();
    assert_eq!(told, vec![0, 1]);
    assert!(service.poll_update(&mut app).is_none());

    let opened = service.request(&app, ServiceRequest::OpenWorkspace(0), |_| 12);
    assert_eq!(opened, Ok(ServiceResponse::OpenedWorkspace(12)));
    let refused = service.request(&app, ServiceRequest::OpenWorkspace(1), |_| 12);
    assert_eq!(refused, Err(ServiceError::WorkspaceNotFound(1)));
    let refused = service.request(&app, ServiceRequest::OpenWorkspace(2), |_| 12);
    assert_eq!(refused, Err(ServiceError::WorkspaceNotFound(2)));

    assert_eq!(Peer::opened_workspace(Ok(opened)).unwrap(), 12);
    let error = Peer::opened_workspace(Ok(refused)).unwrap_err();
    assert!(matches!(error, WorkspaceOpenError::NotFound(2)));
    assert_eq!(error.message(), "workspace not found for id 2");
    let error = Peer::opened_workspace(Err(RpcError::IoError("broken".to_string()))).unwrap_err();
    assert_eq!(error.message(), "rpc error: broken");
    assert_eq!(WorkspaceService::init(3).project, 3);
}

#[test]
fn peer_list_opens_the_first_workspace() {
    let mut list = PeerList::new();
    let observer = list.updates();
    let opened = list.take_opened_workspaces().unwrap();
    assert!(list.take_opened_workspaces().is_none());
    let peer = |ids: Vec<usize>| Peer {
        replica_id: 8,
        state: Ok(ServiceState { workspace_ids: ids }),
    };
    assert_eq!(list.connect_to_server(peer(Vec::new())), None);
    assert!(list.poll_update(observer));
    assert!(!list.poll_update(observer));
    assert_eq!(list.connect_to_server(peer(vec![5, 6])), Some(5));
    list.update_peer(peer(vec![6]));
    assert!(list.poll_update(observer));
    assert_eq!(list.peer(8).unwrap().open_first_workspace().unwrap(), Some(6));
    assert!(list.peer(9).is_none());
    let broken = Peer {
        replica_id: 9,
        state: Err(RpcError::IoError("broken".to_string())),
    };
    assert_eq!(list.connect_to_server(broken), None);
    assert!(list.peer(9).unwrap().open_first_workspace().is_err());
    list.open_workspace(RemoteWorkspace::new(8, RemoteProject::new(Vec::new())));
    drop(list);
    let workspaces = drain(opened);
    assert_eq!(workspaces.len(), 1);
    assert_eq!(workspaces[0].replica_id(), 8);
}

#[test]
fn clients_are_told_apart() {
    assert_eq!(
        session::accept_connection(Some(&IncomingMessage::StartApp)),
        Some(Role::App)
    );
    assert_eq!(
        session::accept_connection(Some(&IncomingMessage::StartCli { headless: true })),
        Some(Role::Cli { headless: true })
    );
    assert_eq!(
        session::accept_connection(Some(&IncomingMessage::StartWindow { window_id: 3 })),
        Some(Role::Window { window_id: 3 })
    );
    assert_eq!(
        session::accept_connection(Some(&IncomingMessage::TcpListen { port: 1 })),
        Some(Role::Unexpected)
    );
    assert_eq!(session::accept_connection(None), None);

    let mut app: App<&str> = App::new(false);
    assert!(session::start_app(&mut app).is_ok());
    assert_eq!(
        error_text(session::start_app(&mut app).unwrap_err()),
        "An application client is already registered"
    );
    let mut headless: App<&str> = App::new(true);
    assert_eq!(
        error_text(session::start_app(&mut headless).unwrap_err()),
        "This is a headless application instance"
    );
    assert!(matches!(
        session::start_cli(&app, false),
        OutgoingMessage::Acknowledged
    ));
    assert_eq!(
        error_text(session::start_cli(&app, true)),
        "Since Xray was initially started without --headless, no subsequent commands may be --headless"
    );
    assert_eq!(
        error_text(session::start_cli(&headless, false)),
        "Since Xray was initially started with --headless, all subsequent commands must be --headless"
    );
    assert_eq!(
        error_text(session::start_window(&mut app, 12).unwrap_err()),
        "No window exists for id 12"
    );
    app.open_local_workspace(0, Vec::new(), "window");
    assert_eq!(*session::start_window(&mut app, 0).unwrap(), "window");
    assert_eq!(session::close_window(&mut app, 0), Ok(()));
    assert_eq!(
        session::close_window(&mut app, 0),
        Err("Window not found".to_string())
    );
}

#[test]
fn messages_are_answered() {
    let step = session::handle_app_message(IncomingMessage::TcpListen { port: 80 });
    assert!(matches!(step, AppStep::TcpListen { port: 80 }));
    let step = session::handle_app_message(IncomingMessage::CloseWindow { window_id: 2 });
    assert!(matches!(step, AppStep::CloseWindow { window_id: 2 }));
    let step = session::handle_app_message(IncomingMessage::StartApp);
    assert!(matches!(step, AppStep::Unexpected { .. }));
    assert_eq!(
        session::handle_window_message(&IncomingMessage::Action { view_id: 4 }),
        Some(4)
    );
    assert_eq!(session::handle_window_message(&IncomingMessage::StartApp), None);
    assert!(matches!(
        session::command_message(Command::OpenWindow(5)),
        OutgoingMessage::OpenWindow { window_id: 5 }
    ));
    assert!(matches!(session::response(Ok(())), OutgoingMessage::Acknowledged));
    assert_eq!(error_text(session::response(Err("no".to_string()))), "no");
    assert_eq!(session::tcp_listen(true), Ok(()));
    assert_eq!(
        session::tcp_listen(false),
        Err("Error binding address".to_string())
    );
    assert_eq!(session::connect_to_peer("1.2.3.4:5", Connection::Connected), Ok(()));
    assert_eq!(
        session::connect_to_peer(
            "1.2.3.4:5",
            Connection::NoSocket {
                description: "connection refused".to_string()
            }
        ),
        Err("Could not connect to address 1.2.3.4:5, connection refused".to_string())
    );
    assert_eq!(
        session::connect_to_peer(
            "1.2.3.4:5",
            Connection::NoPeer {
                description: "gone".to_string()
            }
        ),
        Err("RPC error: gone".to_string())
    );
    let answer = session::report_input_errors(Ok(OutgoingMessage::Acknowledged));
    assert!(matches!(answer, OutgoingMessage::Acknowledged));
    assert_eq!(
        error_text(session::report_input_errors(Err("bad frame".to_string()))),
        "Error reading message on server: bad frame"
    );
}

#[test]
fn workspaces_are_opened_for_new_replicas() {
    let path = |path: &str, is_absolute: bool| session::WorkspacePath {
        path: path.to_string(),
        is_absolute,
    };
    let first = session::open_workspace(&vec![path("/a", true)]).unwrap();
    let second = session::open_workspace(&Vec::new()).unwrap();
    assert_ne!(first, second);
    for id in vec![first, second] {
        assert_eq!((id >> 76) & 0xf, 4);
        assert_eq!((id >> 62) & 3, 2);
    }
    assert_eq!(
        session::open_workspace(&vec![path("/a", true), path("b", false)]),
        Err("All paths must be absolute".to_string())
    );
}

#[test]
fn workspace_view_shows_what_was_opened() {
    let mut view = WorkspaceView::new();
    let observer = view.updates();
    view.open_buffer(|| panic!("not shown yet"));
    assert!(!view.poll(observer));
    view.will_mount();
    view.dispatch_action(WorkspaceViewAction::ToggleFileFinder, || 5);
    assert_eq!(view.render().modal, Some(5));
    assert!(view.poll(observer));
    view.toggle_file_finder(|| panic!("there is one"));
    assert_eq!(view.render().modal, None);
    view.toggle_file_finder(|| 6);
    view.open_buffer(|| 7);
    let mut buffer = Buffer::new(0, Vec::new());
    let mut buffer_view = BufferView::new(&mut buffer);
    buffer_view.mount(7, &mut view);
    view.set_active_buffer_view(7);
    let frame = view.render();
    assert_eq!(frame.center_pane, Some(7));
    assert_eq!(frame.modal, None);
    assert_eq!(frame.left_panel, None);
    view.toggle_file_finder(|| 8);
    view.did_close();
    assert_eq!(view.render().modal, None);
}
