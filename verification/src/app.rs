//! The application: its workspaces, its windows and its peers.

use std::collections::HashMap;

use futures::unsync::mpsc::{self, SendError, UnboundedReceiver, UnboundedSender};
use vstd::prelude::*;

use crate::buffer::ReplicaId;
use crate::error::RpcError;
use crate::network;
use crate::notify_cell::NotifyCell;
use crate::project::{self, LocalProject, ServiceId};
use crate::strings;
use crate::usize_map::{UsizeMap, UsizeMapModel};
use crate::work_tree::WorkTree;
use crate::workspace::{LocalWorkspace, RemoteWorkspace, Workspace};

verus! {

/// Which window is meant.
pub type WindowId = usize;

/// Which workspace is meant.
pub type WorkspaceId = usize;

/// What the application asks of whoever shows its windows.
#[derive(Clone, Copy, Debug, PartialEq, Eq, Structural)]
pub enum Command {
    OpenWindow(WindowId),
}

/// What a peer is told of the application.
#[derive(Debug)]
pub struct ServiceState {
    pub workspace_ids: Vec<WorkspaceId>,
}

/// What a peer asks of the application.
#[derive(Clone, Copy, Debug, PartialEq, Eq, Structural)]
pub enum ServiceRequest {
    OpenWorkspace(WorkspaceId),
}

/// What a peer is answered.
#[derive(Clone, Copy, Debug, PartialEq, Eq, Structural)]
pub enum ServiceResponse {
    OpenedWorkspace(ServiceId),
}

/// Why a peer is not given what it asks for.
#[derive(Clone, Copy, Debug, PartialEq, Eq, Structural)]
pub enum ServiceError {
    WorkspaceNotFound(WorkspaceId),
}

/// A workspace of the application.
pub enum WorkspaceEntry {
    Local(LocalWorkspace),
    Remote(RemoteWorkspace),
}

/// Why a workspace of a peer could not be opened.
#[derive(Debug)]
pub enum WorkspaceOpenError {
    NotFound(WorkspaceId),
    RpcError(RpcError),
}

impl From<RpcError> for WorkspaceOpenError {
    fn from(error: RpcError) -> (result: WorkspaceOpenError) {
        WorkspaceOpenError::RpcError(error)
    }
}

impl vstd::std_specs::convert::FromSpecImpl<RpcError> for WorkspaceOpenError {
    open spec fn obeys_from_spec() -> bool {
        true
    }

    open spec fn from_spec(error: RpcError) -> WorkspaceOpenError {
        WorkspaceOpenError::RpcError(error)
    }
}

impl WorkspaceOpenError {
    /// What the error says.
    pub fn message(&self) -> (message: String)
        ensures
            message@ == (match *self {
                WorkspaceOpenError::NotFound(id) => "workspace not found for id "@
                    + strings::decimal(id as nat),
                WorkspaceOpenError::RpcError(RpcError::IoError(description)) => "rpc error: "@
                    + description@,
            }),
    {
        match self {
            WorkspaceOpenError::NotFound(id) => {
                let mut message = "workspace not found for id ".to_owned();
                strings::push_decimal(&mut message, *id);
                message
            },
            WorkspaceOpenError::RpcError(RpcError::IoError(description)) => strings::joined(
                "rpc error: ",
                description.as_str(),
            ),
        }
    }
}

/// Whether a command was sent, or it failed to send it.
pub open spec fn command_sent(
    sender: UnboundedSender<Command>,
    command: Command,
    sent: bool,
) -> bool {
    exists|result: Result<(), SendError<Command>>|
        (result is Ok) == sent && #[trigger] call_ensures(
            UnboundedSender::<Command>::unbounded_send,
            (&sender, command),
            result,
        )
}

/// An application as a mathematical value.
#[verifier::ext_equal]
#[verifier::reject_recursive_types(W)]
pub struct AppModel<W> {
    pub headless: bool,
    /// Where commands are sent.
    pub commands_tx: UnboundedSender<Command>,
    /// Where commands come out, until somebody has asked for them.
    pub commands_rx: Option<UnboundedReceiver<Command>>,
    pub workspaces: UsizeMapModel<WorkspaceEntry>,
    pub windows: UsizeMapModel<W>,
    /// For each observer, whether there is an update that it has not seen.
    pub unseen: Seq<bool>,
}

impl<W> AppModel<W> {
    /// The application with one more workspace, once its observers have something to
    /// see.
    pub open spec fn with_workspace(self, workspace: WorkspaceEntry) -> AppModel<W> {
        AppModel {
            workspaces: self.workspaces.with(workspace),
            unseen: self.unseen.map_values(|seen: bool| true),
            ..self
        }
    }

    /// The application once a window is opened, unless it has none. Where commands are
    /// sent another way from then on, they are there to be asked for anew.
    pub open spec fn with_window(
        self,
        window: W,
        anew: Option<(UnboundedSender<Command>, UnboundedReceiver<Command>)>,
    ) -> AppModel<W> {
        if self.headless {
            self
        } else {
            match anew {
                Some((commands_tx, commands_rx)) => AppModel {
                    windows: self.windows.with(window),
                    commands_tx,
                    commands_rx: Some(commands_rx),
                    ..self
                },
                None => AppModel { windows: self.windows.with(window), ..self },
            }
        }
    }

    /// Whether the next window is had shown, unless the application has none: the
    /// command to show it was sent where commands are sent, or it failed to send it and
    /// the command was sent into a new channel.
    pub open spec fn has_shown(
        self,
        anew: Option<(UnboundedSender<Command>, UnboundedReceiver<Command>)>,
    ) -> bool {
        !self.headless ==> {
            let command = Command::OpenWindow(self.windows.next_id);
            &&& command_sent(self.commands_tx, command, anew is None)
            &&& anew matches Some((tx, rx)) ==> {
                &&& network::are_ends(tx, rx)
                &&& exists|resent: bool| #[trigger] command_sent(tx, command, resent)
            }
        }
    }

    /// Whether there is a number left for a workspace and for a window.
    pub open spec fn has_room(self) -> bool {
        self.workspaces.next_id < usize::MAX && self.windows.next_id < usize::MAX
    }
}

/// An application. It does without windows where it is headless.
#[verifier::reject_recursive_types(W)]
pub struct App<W> {
    headless: bool,
    commands_tx: UnboundedSender<Command>,
    commands_rx: Option<UnboundedReceiver<Command>>,
    workspaces: UsizeMap<WorkspaceEntry>,
    windows: UsizeMap<W>,
    updates: NotifyCell<()>,
}

impl<W> View for App<W> {
    type V = AppModel<W>;

    closed spec fn view(&self) -> AppModel<W> {
        AppModel {
            headless: self.headless,
            commands_tx: self.commands_tx,
            commands_rx: self.commands_rx,
            workspaces: self.workspaces@,
            windows: self.windows@,
            unseen: self.updates.unseen(),
        }
    }
}

impl<W> App<W> {
    /// Every number in use was given out.
    pub open spec fn wf(&self) -> bool {
        &&& forall|id: WorkspaceId| #[trigger]
            self@.workspaces.entries.dom().contains(id) ==> id < self@.workspaces.next_id
        &&& forall|id: WindowId| #[trigger]
            self@.windows.entries.dom().contains(id) ==> id < self@.windows.next_id
    }

    pub fn new(headless: bool) -> (app: App<W>)
        ensures
            app@.commands_rx matches Some(rx) && network::are_ends(app@.commands_tx, rx),
            app@ == (AppModel {
                headless,
                commands_tx: app@.commands_tx,
                commands_rx: app@.commands_rx,
                workspaces: UsizeMapModel { next_id: 0, entries: Map::empty() },
                windows: UsizeMapModel { next_id: 0, entries: Map::<usize, W>::empty() },
                unseen: Seq::empty(),
            }),
            app.wf(),
    {
        let (commands_tx, commands_rx) = mpsc::unbounded();
        assert(network::are_ends(commands_tx, commands_rx));
        App {
            headless,
            commands_tx,
            commands_rx: Some(commands_rx),
            workspaces: UsizeMap::new(),
            windows: UsizeMap::new(),
            updates: NotifyCell::new(()),
        }
    }

    /// Hands out the commands of the application, once.
    pub fn commands(&mut self) -> (commands: Option<UnboundedReceiver<Command>>)
        ensures
            commands == old(self)@.commands_rx,
            final(self)@ == (AppModel { commands_rx: None, ..old(self)@ }),
            old(self).wf() ==> final(self).wf(),
    {
        self.commands_rx.take()
    }

    pub fn headless(&self) -> (headless: bool)
        ensures
            headless == self@.headless,
    {
        self.headless
    }

    /// Adds a workspace.
    fn add_workspace(&mut self, workspace: WorkspaceEntry)
        requires
            old(self).wf(),
            old(self)@.workspaces.next_id < usize::MAX,
        ensures
            final(self)@ == old(self)@.with_workspace(workspace),
            final(self).wf(),
    {
        let _ = self.workspaces.add(workspace);
        self.updates.set(());
        assert(self.workspaces.wf());
        assert(self@.windows == old(self)@.windows);
    }

    /// Opens a window, unless the application is headless, and has it shown in a given
    /// way: the command to show it is sent to whoever shows windows, and where that
    /// fails commands are there to be asked for anew, with that command as the first.
    pub fn open_window_with<F>(&mut self, window: W, send: F) -> (window_id: Option<WindowId>) where
        F: Fn(&UnboundedSender<Command>, Command) -> bool,

        requires
            old(self).wf(),
            old(self)@.windows.next_id < usize::MAX,
            forall|sender: &UnboundedSender<Command>, command: Command| #[trigger]
                send.requires((sender, command)),
        ensures
            old(self)@.headless ==> window_id is None && final(self)@ == old(self)@,
            !old(self)@.headless ==> {
                let id = old(self)@.windows.next_id;
                &&& window_id == Some(id)
                &&& exists|
                    anew: Option<(UnboundedSender<Command>, UnboundedReceiver<Command>)>,
                |
                    {
                        &&& send.ensures(
                            (&old(self)@.commands_tx, Command::OpenWindow(id)),
                            anew is None,
                        )
                        &&& final(self)@ == #[trigger] old(self)@.with_window(window, anew)
                        &&& anew matches Some((tx, rx)) ==> {
                            &&& network::are_ends(tx, rx)
                            &&& exists|resent: bool| #[trigger]
                                send.ensures((&tx, Command::OpenWindow(id)), resent)
                        }
                    }
            },
            final(self).wf(),
    {
        if self.headless {
            return None;
        }
        let window_id: WindowId = self.windows.add(window);
        let sent = send(&self.commands_tx, Command::OpenWindow(window_id));
        let ghost mut anew: Option<(UnboundedSender<Command>, UnboundedReceiver<Command>)> = None;
        if !sent {
            let (commands_tx, commands_rx) = mpsc::unbounded();
            assert(network::are_ends(commands_tx, commands_rx));
            let _ = send(&commands_tx, Command::OpenWindow(window_id));
            proof {
                anew = Some((commands_tx, commands_rx));
            }
            self.commands_tx = commands_tx;
            self.commands_rx = Some(commands_rx);
        }
        assert(self@ == old(self)@.with_window(window, anew));
        Some(window_id)
    }

    /// Opens a window for a workspace, unless the application is headless, and has it
    /// shown.
    fn open_workspace_window(&mut self, window: W) -> (window_id: Option<WindowId>)
        requires
            old(self).wf(),
            old(self)@.windows.next_id < usize::MAX,
        ensures
            exists|anew: Option<(UnboundedSender<Command>, UnboundedReceiver<Command>)>|
                old(self)@.has_shown(anew) && final(self)@ == #[trigger] old(self)@.with_window(
                    window,
                    anew,
                ),
            window_id == (if old(self)@.headless {
                None
            } else {
                Some(old(self)@.windows.next_id)
            }),
            final(self).wf(),
    {
        let send = |sender: &UnboundedSender<Command>, command: Command| -> (sent: bool)
            ensures
                command_sent(*sender, command, sent),
            {
                let result = sender.unbounded_send(command);
                assert(call_ensures(
                    UnboundedSender::<Command>::unbounded_send,
                    (sender, command),
                    result,
                ));
                result.is_ok()
            };
        let ghost command = Command::OpenWindow(self@.windows.next_id);
        let window_id = self.open_window_with(window, send);
        proof {
            if old(self)@.headless {
                assert(self@ == old(self)@.with_window(window, None));
            } else {
                let anew = choose|
                    anew: Option<(UnboundedSender<Command>, UnboundedReceiver<Command>)>,
                |
                    {
                        &&& send.ensures((&old(self)@.commands_tx, command), anew is None)
                        &&& self@ == #[trigger] old(self)@.with_window(window, anew)
                        &&& anew matches Some((tx, rx)) ==> {
                            &&& network::are_ends(tx, rx)
                            &&& exists|resent: bool| #[trigger]
                                send.ensures((&tx, command), resent)
                        }
                    };
                if let Some((tx, rx)) = anew {
                    let resent = choose|resent: bool| #[trigger]
                        send.ensures((&tx, command), resent);
                    assert(command_sent(tx, command, resent));
                }
                assert(old(self)@.has_shown(anew));
            }
        }
        window_id
    }

    /// Opens a workspace of trees on this machine, and a window for it.
    pub fn open_local_workspace(
        &mut self,
        replica_id: ReplicaId,
        roots: Vec<WorkTree>,
        window: W,
    ) -> (window_id: Option<WindowId>)
        requires
            old(self).wf(),
            old(self)@.has_room(),
            forall|i: int| 0 <= i < roots@.len() ==> (#[trigger] roots@[i]).wf(),
        ensures
            exists|
                workspace: LocalWorkspace,
                anew: Option<(UnboundedSender<Command>, UnboundedReceiver<Command>)>,
            |
                {
                    &&& workspace.spec_replica_id() == replica_id
                    &&& workspace.spec_project().wf()
                    &&& workspace.spec_project().trees() == project::numbered(roots@)
                    &&& old(self)@.has_shown(anew)
                    &&& final(self)@ == #[trigger] old(self)@.with_workspace(
                        WorkspaceEntry::Local(workspace),
                    ).with_window(window, anew)
                },
            window_id == (if old(self)@.headless {
                None
            } else {
                Some(old(self)@.windows.next_id)
            }),
            final(self).wf(),
    {
        let workspace = LocalWorkspace::new(replica_id, LocalProject::new(roots));
        let ghost added = workspace;
        self.add_workspace(WorkspaceEntry::Local(workspace));
        let ghost before = self@;
        let window_id = self.open_workspace_window(window);
        proof {
            let anew = choose|
                anew: Option<(UnboundedSender<Command>, UnboundedReceiver<Command>)>,
            |
                before.has_shown(anew) && self@ == #[trigger] before.with_window(window, anew);
            assert(old(self)@.has_shown(anew));
            assert(self@ == old(self)@.with_workspace(WorkspaceEntry::Local(added)).with_window(
                window,
                anew,
            ));
        }
        window_id
    }

    /// Takes in a workspace of a peer that was opened, and opens a window for it.
    pub fn open_remote_workspace(&mut self, workspace: RemoteWorkspace, window: W) -> (window_id:
        Option<WindowId>)
        requires
            old(self).wf(),
            old(self)@.has_room(),
        ensures
            exists|anew: Option<(UnboundedSender<Command>, UnboundedReceiver<Command>)>|
                old(self)@.has_shown(anew) && final(self)@ == #[trigger] old(
                    self,
                )@.with_workspace(WorkspaceEntry::Remote(workspace)).with_window(window, anew),
            window_id == (if old(self)@.headless {
                None
            } else {
                Some(old(self)@.windows.next_id)
            }),
            final(self).wf(),
    {
        let ghost added = workspace;
        self.add_workspace(WorkspaceEntry::Remote(workspace));
        let ghost before = self@;
        let window_id = self.open_workspace_window(window);
        proof {
            let anew = choose|
                anew: Option<(UnboundedSender<Command>, UnboundedReceiver<Command>)>,
            |
                before.has_shown(anew) && self@ == #[trigger] before.with_window(window, anew);
            assert(old(self)@.has_shown(anew));
            assert(self@ == old(self)@.with_workspace(WorkspaceEntry::Remote(added)).with_window(
                window,
                anew,
            ));
        }
        window_id
    }

    /// A workspace.
    pub fn workspace(&self, id: WorkspaceId) -> (workspace: Option<&WorkspaceEntry>)
        ensures
            workspace == (if self@.workspaces.entries.contains_key(id) {
                Some(&self@.workspaces.entries[id])
            } else {
                None
            }),
    {
        self.workspaces.get(&id)
    }

    /// A workspace, to be changed in place.
    pub fn workspace_mut(&mut self, id: WorkspaceId) -> (workspace: Option<&mut WorkspaceEntry>)
        ensures
            match workspace {
                Some(workspace) => old(self)@.workspaces.entries.contains_key(id) && *workspace
                    == old(self)@.workspaces.entries[id] && final(self)@ == (AppModel {
                    workspaces: UsizeMapModel {
                        entries: old(self)@.workspaces.entries.insert(id, *final(workspace)),
                        ..old(self)@.workspaces
                    },
                    ..old(self)@
                }),
                None => !old(self)@.workspaces.entries.contains_key(id) && final(self)@
                    == old(self)@,
            },
            old(self).wf() ==> final(self).wf(),
    {
        self.workspaces.get_mut(&id)
    }

    /// A window that is to be shown.
    pub fn start_window(&mut self, id: &WindowId) -> (window: Result<&mut W, ()>)
        ensures
            match window {
                Ok(window) => old(self)@.windows.entries.contains_key(*id) && *window
                    == old(self)@.windows.entries[*id] && final(self)@ == (AppModel {
                    windows: UsizeMapModel {
                        entries: old(self)@.windows.entries.insert(*id, *final(window)),
                        ..old(self)@.windows
                    },
                    ..old(self)@
                }),
                Err(_) => !old(self)@.windows.entries.contains_key(*id) && final(self)@
                    == old(self)@,
            },
            old(self).wf() ==> final(self).wf(),
    {
        match self.windows.get_mut(id) {
            Some(window) => Ok(window),
            None => Err(()),
        }
    }

    /// The window that an action is meant for, which has to be there.
    pub fn dispatch_action(&mut self, window_id: WindowId) -> (window: Option<&mut W>)
        requires
            old(self)@.windows.entries.contains_key(window_id),
        ensures
            window matches Some(window) && *window == old(self)@.windows.entries[window_id]
                && final(self)@ == (AppModel {
                windows: UsizeMapModel {
                    entries: old(self)@.windows.entries.insert(window_id, *final(window)),
                    ..old(self)@.windows
                },
                ..old(self)@
            }),
            old(self).wf() ==> final(self).wf(),
    {
        self.windows.get_mut(&window_id)
    }

    /// Closes a window.
    pub fn close_window(&mut self, window_id: WindowId) -> (result: Result<(), ()>)
        ensures
            result is Ok <==> old(self)@.windows.entries.contains_key(window_id),
            final(self)@ == (AppModel {
                windows: UsizeMapModel {
                    entries: old(self)@.windows.entries.remove(window_id),
                    ..old(self)@.windows
                },
                ..old(self)@
            }),
            old(self).wf() ==> final(self).wf(),
    {
        match self.windows.remove(&window_id) {
            Some(_) => Ok(()),
            None => Err(()),
        }
    }

    /// Adds an observer of the application.
    pub fn observe(&mut self) -> (observer: usize)
        ensures
            observer == old(self)@.unseen.len(),
            final(self)@ == (AppModel { unseen: old(self)@.unseen.push(false), ..old(self)@ }),
            old(self).wf() ==> final(self).wf(),
    {
        self.updates.observe()
    }
}

/// Serves an application to a peer, as one of its observers.
pub struct AppService {
    pub observer: usize,
}

impl AppService {
    pub fn new<W>(app: &mut App<W>) -> (service: AppService)
        ensures
            service.observer == old(app)@.unseen.len(),
            final(app)@ == (AppModel { unseen: old(app)@.unseen.push(false), ..old(app)@ }),
            old(app).wf() ==> final(app).wf(),
    {
        AppService { observer: app.observe() }
    }

    /// What a peer is told of the application: the numbers of its workspaces, in any
    /// order.
    pub fn state<W>(&self, app: &App<W>) -> (state: ServiceState)
        ensures
            state.workspace_ids@.no_duplicates(),
            state.workspace_ids@.to_set() == app@.workspaces.entries.dom(),
    {
        ServiceState { workspace_ids: app.workspaces.keys() }
    }

    /// What a peer is told first.
    pub fn init<W>(&self, app: &App<W>) -> (state: ServiceState)
        ensures
            state.workspace_ids@.no_duplicates(),
            state.workspace_ids@.to_set() == app@.workspaces.entries.dom(),
    {
        self.state(app)
    }

    /// What a peer is told where there was an update since it was last told.
    pub fn poll_update<W>(&self, app: &mut App<W>) -> (update: Option<ServiceState>)
        requires
            self.observer < old(app)@.unseen.len(),
        ensures
            update is Some == old(app)@.unseen[self.observer as int],
            update matches Some(state) ==> state.workspace_ids@.no_duplicates()
                && state.workspace_ids@.to_set() == old(app)@.workspaces.entries.dom(),
            final(app)@ == (AppModel {
                unseen: old(app)@.unseen.update(self.observer as int, false),
                ..old(app)@
            }),
            old(app).wf() ==> final(app).wf(),
    {
        if app.updates.poll(self.observer).is_some() {
            Some(self.state(app))
        } else {
            None
        }
    }

    /// What a peer is answered: a workspace on this machine gets a service; one of
    /// another peer is not passed on.
    pub fn request<W, F>(&self, app: &App<W>, request: ServiceRequest, add_service: F) -> (response:
        Result<ServiceResponse, ServiceError>) where F: FnOnce(&LocalWorkspace) -> ServiceId
        requires
            forall|workspace: &LocalWorkspace| #[trigger] add_service.requires((workspace,)),
        ensures
            match request {
                ServiceRequest::OpenWorkspace(id) => if app@.workspaces.entries.contains_key(id)
                    && app@.workspaces.entries[id] is Local {
                    response matches Ok(ServiceResponse::OpenedWorkspace(service_id))
                        && add_service.ensures(
                        (&app@.workspaces.entries[id]->Local_0,),
                        service_id,
                    )
                } else {
                    response == Err::<ServiceResponse, ServiceError>(
                        ServiceError::WorkspaceNotFound(id),
                    )
                },
            },
    {
        match request {
            ServiceRequest::OpenWorkspace(id) => match app.workspaces.get(&id) {
                Some(WorkspaceEntry::Local(workspace)) => Ok(
                    ServiceResponse::OpenedWorkspace(add_service(workspace)),
                ),
                Some(WorkspaceEntry::Remote(_)) => Err(ServiceError::WorkspaceNotFound(id)),
                None => Err(ServiceError::WorkspaceNotFound(id)),
            },
        }
    }
}

/// Another application.
#[derive(Debug)]
pub struct Peer {
    pub replica_id: ReplicaId,
    /// What was told of it last, or why nothing can be told.
    pub state: Result<ServiceState, RpcError>,
}

impl Peer {
    /// Which workspace of the peer is opened first, where it has one.
    pub fn open_first_workspace(&self) -> (workspace: Result<Option<WorkspaceId>, &RpcError>)
        ensures
            match self.state {
                Ok(state) => workspace == Ok::<Option<WorkspaceId>, &RpcError>(
                    if state.workspace_ids@.len() > 0 {
                        Some(state.workspace_ids@[0])
                    } else {
                        None
                    },
                ),
                Err(error) => workspace == Err::<Option<WorkspaceId>, &RpcError>(&error),
            },
    {
        match &self.state {
            Ok(state) => if state.workspace_ids.len() > 0 {
                Ok(Some(state.workspace_ids[0]))
            } else {
                Ok(None)
            },
            Err(error) => Err(error),
        }
    }

    /// Which service a workspace of the peer got, once it was asked for one.
    pub fn opened_workspace(
        response: Result<Result<ServiceResponse, ServiceError>, RpcError>,
    ) -> (service: Result<ServiceId, WorkspaceOpenError>)
        ensures
            service == (match response {
                Ok(Ok(ServiceResponse::OpenedWorkspace(service_id))) => Ok::<
                    ServiceId,
                    WorkspaceOpenError,
                >(service_id),
                Ok(Err(ServiceError::WorkspaceNotFound(id))) => Err(
                    WorkspaceOpenError::NotFound(id),
                ),
                Err(error) => Err(WorkspaceOpenError::RpcError(error)),
            }),
    {
        match response {
            Ok(Ok(ServiceResponse::OpenedWorkspace(service_id))) => Ok(service_id),
            Ok(Err(ServiceError::WorkspaceNotFound(id))) => Err(WorkspaceOpenError::NotFound(id)),
            Err(error) => Err(WorkspaceOpenError::from(error)),
        }
    }
}

/// The other applications that this one is connected to.
pub struct PeerList {
    peers: HashMap<ReplicaId, Peer>,
    opened_workspaces_tx: UnboundedSender<RemoteWorkspace>,
    opened_workspaces_rx: Option<UnboundedReceiver<RemoteWorkspace>>,
    updates: NotifyCell<()>,
}

/// A list of peers as a mathematical value.
#[verifier::ext_equal]
pub struct PeerListModel {
    pub peers: Map<ReplicaId, Peer>,
    /// Where opened workspaces are sent.
    pub opened_workspaces_tx: UnboundedSender<RemoteWorkspace>,
    /// Where opened workspaces come out, until somebody has asked for them.
    pub opened_workspaces_rx: Option<UnboundedReceiver<RemoteWorkspace>>,
    /// For each observer, whether there is an update that it has not seen.
    pub unseen: Seq<bool>,
}

impl PeerListModel {
    /// The list with what is known of a peer, once its observers have something to see.
    pub open spec fn with_peer(self, peer: Peer) -> PeerListModel {
        PeerListModel {
            peers: self.peers.insert(peer.replica_id, peer),
            unseen: self.unseen.map_values(|seen: bool| true),
            ..self
        }
    }
}

impl View for PeerList {
    type V = PeerListModel;

    closed spec fn view(&self) -> PeerListModel {
        PeerListModel {
            peers: self.peers@,
            opened_workspaces_tx: self.opened_workspaces_tx,
            opened_workspaces_rx: self.opened_workspaces_rx,
            unseen: self.updates.unseen(),
        }
    }
}

impl PeerList {
    pub fn new() -> (list: PeerList)
        ensures
            list@.opened_workspaces_rx matches Some(rx) && network::are_ends(
                list@.opened_workspaces_tx,
                rx,
            ),
            list@ == (PeerListModel {
                peers: Map::empty(),
                opened_workspaces_tx: list@.opened_workspaces_tx,
                opened_workspaces_rx: list@.opened_workspaces_rx,
                unseen: Seq::empty(),
            }),
    {
        let (tx, rx) = mpsc::unbounded();
        assert(network::are_ends(tx, rx));
        PeerList {
            peers: HashMap::new(),
            opened_workspaces_tx: tx,
            opened_workspaces_rx: Some(rx),
            updates: NotifyCell::new(()),
        }
    }

    /// Hands out the workspaces of peers that are opened, once.
    pub fn take_opened_workspaces(&mut self) -> (workspaces: Option<
        UnboundedReceiver<RemoteWorkspace>,
    >)
        ensures
            workspaces == old(self)@.opened_workspaces_rx,
            final(self)@ == (PeerListModel { opened_workspaces_rx: None, ..old(self)@ }),
    {
        self.opened_workspaces_rx.take()
    }

    /// Adds an observer of the list.
    pub fn updates(&mut self) -> (observer: usize)
        ensures
            observer == old(self)@.unseen.len(),
            final(self)@ == (PeerListModel { unseen: old(self)@.unseen.push(false), ..old(self)@ }),
    {
        self.updates.observe()
    }

    /// Whether there was an update since an observer last polled.
    pub fn poll_update(&mut self, observer: usize) -> (updated: bool)
        requires
            observer < old(self)@.unseen.len(),
        ensures
            updated == old(self)@.unseen[observer as int],
            final(self)@ == (PeerListModel {
                unseen: old(self)@.unseen.update(observer as int, false),
                ..old(self)@
            }),
    {
        self.updates.poll(observer).is_some()
    }

    /// Takes in what is known of a peer, and says which of its workspaces is opened
    /// first.
    pub fn connect_to_server(&mut self, peer: Peer) -> (workspace: Option<WorkspaceId>)
        ensures
            final(self)@ == old(self)@.with_peer(peer),
            workspace == (match peer.state {
                Ok(state) => if state.workspace_ids@.len() > 0 {
                    Some(state.workspace_ids@[0])
                } else {
                    None
                },
                Err(_) => None,
            }),
    {
        broadcast use vstd::std_specs::hash::group_hash_axioms;

        let workspace: Option<WorkspaceId> = match peer.open_first_workspace() {
            Ok(workspace) => workspace,
            Err(_) => None,
        };
        self.peers.insert(peer.replica_id, peer);
        self.updates.set(());
        workspace
    }

    /// What is known of a peer.
    pub fn peer(&self, replica_id: ReplicaId) -> (peer: Option<&Peer>)
        ensures
            peer == (if self@.peers.contains_key(replica_id) {
                Some(&self@.peers[replica_id])
            } else {
                None
            }),
    {
        broadcast use vstd::std_specs::hash::group_hash_axioms;

        self.peers.get(&replica_id)
    }

    /// Takes in what is known of a peer by now.
    pub fn update_peer(&mut self, peer: Peer)
        ensures
            final(self)@ == old(self)@.with_peer(peer),
    {
        broadcast use vstd::std_specs::hash::group_hash_axioms;

        self.peers.insert(peer.replica_id, peer);
        self.updates.set(());
    }

    /// Passes on a workspace of a peer that was opened: it is handed to
    /// `UnboundedSender::unbounded_send`, for whoever takes opened workspaces. Where nobody
    /// wants it, it is dropped.
    pub fn open_workspace(&mut self, workspace: RemoteWorkspace)
        ensures
            exists|sent: Result<(), SendError<RemoteWorkspace>>| #[trigger]
                call_ensures(
                    UnboundedSender::<RemoteWorkspace>::unbounded_send,
                    (&old(self)@.opened_workspaces_tx, workspace),
                    sent,
                ),
            final(self)@ == old(self)@,
    {
        let _ = self.opened_workspaces_tx.unbounded_send(workspace);
    }
}

/// A window that was opened and not closed is there, whatever other windows are
/// closed.
pub proof fn law_opened_window_is_there<W>(
    app: AppModel<W>,
    window: W,
    anew: Option<(UnboundedSender<Command>, UnboundedReceiver<Command>)>,
    closed: WindowId,
)
    requires
        !app.headless,
        app.windows.next_id < usize::MAX,
        closed != app.windows.next_id,
    ensures
        app.with_window(window, anew).windows.entries.remove(closed).contains_key(
            app.windows.next_id,
        ),
        app.with_window(window, anew).windows.entries.remove(closed)[app.windows.next_id] == window,
{
}

/// A headless application opens no window.
pub proof fn law_headless_has_no_windows<W>(
    app: AppModel<W>,
    window: W,
    anew: Option<(UnboundedSender<Command>, UnboundedReceiver<Command>)>,
)
    requires
        app.headless,
    ensures
        app.with_window(window, anew) == app,
{
}

/// A window that is opened gets the next number and is there beside all others; nothing
/// else changes but for where commands are sent and asked for.
pub proof fn law_window_is_added<W>(
    app: AppModel<W>,
    window: W,
    anew: Option<(UnboundedSender<Command>, UnboundedReceiver<Command>)>,
    other: WindowId,
)
    requires
        !app.headless,
        app.windows.next_id < usize::MAX,
        other != app.windows.next_id,
    ensures
        ({
            let after = app.with_window(window, anew);
            &&& after.windows.next_id == app.windows.next_id + 1
            &&& after.windows.entries.contains_key(app.windows.next_id)
            &&& after.windows.entries[app.windows.next_id] == window
            &&& after.windows.entries.contains_key(other) == app.windows.entries.contains_key(
                other,
            )
            &&& after.windows.entries[other] == app.windows.entries[other]
            &&& after.workspaces == app.workspaces
            &&& after.headless == app.headless
            &&& after.unseen == app.unseen
            &&& anew is None ==> after.commands_tx == app.commands_tx && after.commands_rx
                == app.commands_rx
            &&& anew matches Some((tx, rx)) ==> after.commands_tx == tx && after.commands_rx
                == Some(rx)
        }),
{
}

/// Where commands go on being sent the way they were, the command to show the next window
/// was sent that way, and arrived.
pub proof fn law_next_window_is_shown<W>(app: AppModel<W>)
    requires
        !app.headless,
        app.has_shown(None),
    ensures
        exists|result: Result<(), SendError<Command>>|
            result is Ok && #[trigger] call_ensures(
                UnboundedSender::<Command>::unbounded_send,
                (&app.commands_tx, Command::OpenWindow(app.windows.next_id)),
                result,
            ),
{
}

/// A workspace that is opened gets the next number and is there beside all others, and
/// all observers have something to see. Windows and commands stay as they are.
pub proof fn law_workspace_is_added<W>(
    app: AppModel<W>,
    workspace: WorkspaceEntry,
    other: WorkspaceId,
)
    requires
        app.workspaces.next_id < usize::MAX,
        other != app.workspaces.next_id,
    ensures
        ({
            let after = app.with_workspace(workspace);
            &&& after.workspaces.next_id == app.workspaces.next_id + 1
            &&& after.workspaces.entries.contains_key(app.workspaces.next_id)
            &&& after.workspaces.entries[app.workspaces.next_id] == workspace
            &&& after.workspaces.entries.contains_key(other)
                == app.workspaces.entries.contains_key(other)
            &&& after.workspaces.entries[other] == app.workspaces.entries[other]
            &&& after.unseen.len() == app.unseen.len()
            &&& forall|i: int| 0 <= i < after.unseen.len() ==> #[trigger] after.unseen[i]
            &&& after.windows == app.windows
            &&& after.headless == app.headless
            &&& after.commands_tx == app.commands_tx
            &&& after.commands_rx == app.commands_rx
        }),
{
}

/// What is known of a peer is what was last told of it, and what is known of the others
/// stays. All observers have something to see.
pub proof fn law_peer_is_known(list: PeerListModel, peer: Peer, other: ReplicaId)
    requires
        other != peer.replica_id,
    ensures
        ({
            let after = list.with_peer(peer);
            &&& after.peers.contains_key(peer.replica_id)
            &&& after.peers[peer.replica_id] == peer
            &&& after.peers.contains_key(other) == list.peers.contains_key(other)
            &&& after.peers[other] == list.peers[other]
            &&& after.unseen.len() == list.unseen.len()
            &&& forall|i: int| 0 <= i < after.unseen.len() ==> #[trigger] after.unseen[i]
            &&& after.opened_workspaces_tx == list.opened_workspaces_tx
            &&& after.opened_workspaces_rx == list.opened_workspaces_rx
        }),
{
}

/// Where commands are there to be asked for anew, the command to show the next window did
/// not arrive the way that they were sent, and was sent into the new channel.
pub proof fn law_next_window_is_shown_anew<W>(
    app: AppModel<W>,
    tx: UnboundedSender<Command>,
    rx: UnboundedReceiver<Command>,
)
    requires
        !app.headless,
        app.has_shown(Some((tx, rx))),
    ensures
        exists|result: Result<(), SendError<Command>>|
            result is Err && #[trigger] call_ensures(
                UnboundedSender::<Command>::unbounded_send,
                (&app.commands_tx, Command::OpenWindow(app.windows.next_id)),
                result,
            ),
        exists|result: Result<(), SendError<Command>>| #[trigger]
            call_ensures(
                UnboundedSender::<Command>::unbounded_send,
                (&tx, Command::OpenWindow(app.windows.next_id)),
                result,
            ),
        call_ensures(mpsc::unbounded::<Command>, (), (tx, rx)),
{
    let command = Command::OpenWindow(app.windows.next_id);
    let resent = choose|resent: bool| #[trigger] command_sent(tx, command, resent);
    assert(command_sent(tx, command, resent));
}

} // verus!
