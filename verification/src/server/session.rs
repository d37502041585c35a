//! What clients ask of the server, and what they are answered.

use futures::unsync::mpsc::UnboundedReceiver;
use vstd::prelude::*;

use crate::app::{App, AppModel, Command, WindowId};
use crate::buffer::ReplicaId;
use crate::strings;
use crate::usize_map::UsizeMapModel;
use crate::views::workspace::ViewId;

verus! {

/// A path that is to be opened, and whether it is absolute.
#[derive(Debug)]
pub struct WorkspacePath {
    pub path: String,
    pub is_absolute: bool,
}

/// What a client says.
#[derive(Debug)]
pub enum IncomingMessage {
    StartApp,
    StartCli { headless: bool },
    StartWindow { window_id: WindowId },
    OpenWorkspace { paths: Vec<WorkspacePath> },
    TcpListen { port: u16 },
    ConnectToPeer { address: String },
    CloseWindow { window_id: WindowId },
    Action { view_id: ViewId },
}

/// What a client is told.
#[derive(Debug)]
pub enum OutgoingMessage {
    Acknowledged,
    OpenWindow { window_id: WindowId },
    Error { description: String },
}

impl OutgoingMessage {
    /// Whether a client is told of an error in certain words.
    pub open spec fn is_error(self, words: Seq<char>) -> bool {
        self matches OutgoingMessage::Error { description } && description@ == words
    }
}

/// What a client is there for.
#[derive(Clone, Copy, Debug, PartialEq, Eq, Structural)]
pub enum Role {
    App,
    Cli { headless: bool },
    Window { window_id: WindowId },
    Unexpected,
}

/// What a client is there for, by what it says first. One that says nothing is there
/// for nothing.
pub fn accept_connection(first_message: Option<&IncomingMessage>) -> (role: Option<Role>)
    ensures
        role == (match first_message {
            Some(IncomingMessage::StartApp) => Some(Role::App),
            Some(IncomingMessage::StartCli { headless }) => Some(
                Role::Cli { headless: *headless },
            ),
            Some(IncomingMessage::StartWindow { window_id }) => Some(
                Role::Window { window_id: *window_id },
            ),
            Some(_) => Some(Role::Unexpected),
            None => None,
        }),
{
    match first_message {
        Some(IncomingMessage::StartApp) => Some(Role::App),
        Some(IncomingMessage::StartCli { headless }) => Some(Role::Cli { headless: *headless }),
        Some(IncomingMessage::StartWindow { window_id }) => Some(
            Role::Window { window_id: *window_id },
        ),
        Some(_) => Some(Role::Unexpected),
        None => None,
    }
}

/// What a client is told of a command.
pub fn command_message(command: Command) -> (message: OutgoingMessage)
    ensures
        match command {
            Command::OpenWindow(window_id) => message == (OutgoingMessage::OpenWindow {
                window_id,
            }),
        },
{
    match command {
        Command::OpenWindow(window_id) => OutgoingMessage::OpenWindow { window_id },
    }
}

/// Gives a client the commands of the application, or says why it gets none.
pub fn start_app<W>(app: &mut App<W>) -> (commands: Result<
    UnboundedReceiver<Command>,
    OutgoingMessage,
>)
    ensures
        old(app)@.headless ==> final(app)@ == old(app)@ && (commands matches Err(message)
            && message.is_error("This is a headless application instance"@)),
        !old(app)@.headless ==> final(app)@ == (AppModel { commands_rx: None, ..old(app)@ }),
        !old(app)@.headless ==> match old(app)@.commands_rx {
            Some(rx) => commands == Ok::<UnboundedReceiver<Command>, OutgoingMessage>(rx),
            None => commands matches Err(message) && message.is_error(
                "An application client is already registered"@,
            ),
        },
        old(app).wf() ==> final(app).wf(),
{
    if app.headless() {
        Err(
            OutgoingMessage::Error {
                description: "This is a headless application instance".to_owned(),
            },
        )
    } else {
        match app.commands() {
            Some(commands) => Ok(commands),
            None => Err(
                OutgoingMessage::Error {
                    description: "An application client is already registered".to_owned(),
                },
            ),
        }
    }
}

/// Whether a command line client is welcome: it has to do without windows just where
/// the application does.
pub fn start_cli<W>(app: &App<W>, headless: bool) -> (message: OutgoingMessage)
    ensures
        match (app@.headless, headless) {
            (true, false) => message.is_error(
                "Since Xray was initially started with --headless, all subsequent commands must be --headless"@,
            ),
            (false, true) => message.is_error(
                "Since Xray was initially started without --headless, no subsequent commands may be --headless"@,
            ),
            _ => message == OutgoingMessage::Acknowledged,
        },
{
    match (app.headless(), headless) {
        (true, false) => OutgoingMessage::Error {
            description:
                "Since Xray was initially started with --headless, all subsequent commands must be --headless".to_owned(),
        },
        (false, true) => OutgoingMessage::Error {
            description:
                "Since Xray was initially started without --headless, no subsequent commands may be --headless".to_owned(),
        },
        _ => OutgoingMessage::Acknowledged,
    }
}

/// Gives a client a window, or says that there is none.
pub fn start_window<W>(app: &mut App<W>, window_id: WindowId) -> (window: Result<
    &mut W,
    OutgoingMessage,
>)
    ensures
        match window {
            Ok(window) => old(app)@.windows.entries.contains_key(window_id) && *window
                == old(app)@.windows.entries[window_id] && final(app)@ == (AppModel {
                windows: UsizeMapModel {
                    entries: old(app)@.windows.entries.insert(window_id, *final(window)),
                    ..old(app)@.windows
                },
                ..old(app)@
            }),
            Err(message) => !old(app)@.windows.entries.contains_key(window_id) && final(app)@
                == old(app)@ && message.is_error(
                "No window exists for id "@ + strings::decimal(window_id as nat),
            ),
        },
        old(app).wf() ==> final(app).wf(),
{
    match app.start_window(&window_id) {
        Ok(window) => Ok(window),
        Err(_) => {
            let mut description = "No window exists for id ".to_owned();
            strings::push_decimal(&mut description, window_id);
            Err(OutgoingMessage::Error { description })
        },
    }
}

/// What a message of an application or command line client asks for.
#[derive(Debug)]
pub enum AppStep {
    OpenWorkspace { paths: Vec<WorkspacePath> },
    TcpListen { port: u16 },
    ConnectToPeer { address: String },
    CloseWindow { window_id: WindowId },
    /// The message is none that such a client sends.
    Unexpected { message: IncomingMessage },
}

/// What a message of an application or command line client asks for.
pub fn handle_app_message(message: IncomingMessage) -> (step: AppStep)
    ensures
        step == (match message {
            IncomingMessage::OpenWorkspace { paths } => AppStep::OpenWorkspace { paths },
            IncomingMessage::TcpListen { port } => AppStep::TcpListen { port },
            IncomingMessage::ConnectToPeer { address } => AppStep::ConnectToPeer { address },
            IncomingMessage::CloseWindow { window_id } => AppStep::CloseWindow { window_id },
            _ => AppStep::Unexpected { message },
        }),
{
    match message {
        IncomingMessage::OpenWorkspace { paths } => AppStep::OpenWorkspace { paths },
        IncomingMessage::TcpListen { port } => AppStep::TcpListen { port },
        IncomingMessage::ConnectToPeer { address } => AppStep::ConnectToPeer { address },
        IncomingMessage::CloseWindow { window_id } => AppStep::CloseWindow { window_id },
        message => AppStep::Unexpected { message },
    }
}

/// What a client is told of what came of its message.
pub fn response(result: Result<(), String>) -> (message: OutgoingMessage)
    ensures
        match result {
            Ok(_) => message == OutgoingMessage::Acknowledged,
            Err(description) => message.is_error(description@),
        },
{
    match result {
        Ok(_) => OutgoingMessage::Acknowledged,
        Err(description) => OutgoingMessage::Error { description },
    }
}

/// Which view a message of a window client is meant for, where it is one that such a
/// client sends.
pub fn handle_window_message(message: &IncomingMessage) -> (view_id: Option<ViewId>)
    ensures
        view_id == (match *message {
            IncomingMessage::Action { view_id } => Some(view_id),
            _ => None,
        }),
{
    match message {
        IncomingMessage::Action { view_id } => Some(*view_id),
        _ => None,
    }
}

/// Closes a window.
pub fn close_window<W>(app: &mut App<W>, window_id: WindowId) -> (result: Result<(), String>)
    ensures
        match result {
            Ok(_) => old(app)@.windows.entries.contains_key(window_id),
            Err(description) => !old(app)@.windows.entries.contains_key(window_id) && description@
                == "Window not found"@,
        },
        final(app)@ == (AppModel {
            windows: UsizeMapModel {
                entries: old(app)@.windows.entries.remove(window_id),
                ..old(app)@.windows
            },
            ..old(app)@
        }),
        old(app).wf() ==> final(app).wf(),
{
    match app.close_window(window_id) {
        Ok(_) => Ok(()),
        Err(_) => Err("Window not found".to_owned()),
    }
}

/// Whether a number has the marks of a random one: that it is random stands in four
/// of its bits, and the layout of these in two.
pub open spec fn is_random_id(id: ReplicaId) -> bool {
    (id >> 76) & 0xf == 4 && (id >> 62) & 3 == 2
}

/// `uuid::Uuid::new_v4`, as a number by `uuid::Uuid::as_u128`: the number of a new
/// replica. Six of its bits are the same each time. The others are not stated: they
/// are random. Where the system has no random bytes to give, the call does not return:
/// it panics.
#[verifier::external_body]
fn new_replica_id() -> (id: ReplicaId)
    ensures
        is_random_id(id),
{
    uuid::Uuid::new_v4().as_u128()
}

/// Whether a number was made for a new replica.
pub closed spec fn is_new_replica_id(id: ReplicaId) -> bool {
    call_ensures(new_replica_id, (), id)
}

/// Begins a workspace: gives it a new replica, where all paths that are to be opened are
/// absolute.
pub fn open_workspace(paths: &Vec<WorkspacePath>) -> (replica_id: Result<ReplicaId, String>)
    ensures
        match replica_id {
            Ok(id) => is_new_replica_id(id) && is_random_id(id) && forall|i: int|
                0 <= i < paths@.len() ==> (#[trigger] paths@[i]).is_absolute,
            Err(description) => description@ == "All paths must be absolute"@ && exists|i: int|
                0 <= i < paths@.len() && !(#[trigger] paths@[i]).is_absolute,
        },
{
    let mut i: usize = 0;
    while i < paths.len()
        invariant
            i <= paths@.len(),
            forall|j: int| 0 <= j < i ==> (#[trigger] paths@[j]).is_absolute,
        decreases paths@.len() - i,
    {
        if !paths[i].is_absolute {
            assert(!paths@[i as int].is_absolute);
            return Err("All paths must be absolute".to_owned());
        }
        i += 1;
    }
    let replica_id: ReplicaId = new_replica_id();
    assert(call_ensures(new_replica_id, (), replica_id));
    Ok(replica_id)
}

/// What comes of it that a port was to be listened on.
pub fn tcp_listen(bound: bool) -> (result: Result<(), String>)
    ensures
        match result {
            Ok(_) => bound,
            Err(description) => !bound && description@ == "Error binding address"@,
        },
{
    if bound {
        Ok(())
    } else {
        Err("Error binding address".to_owned())
    }
}

/// What becomes of a connection to a peer.
#[derive(Debug)]
pub enum Connection {
    Connected,
    /// Nobody answered at the address.
    NoSocket { description: String },
    /// The other end did not keep to the protocol.
    NoPeer { description: String },
}

/// What comes of it that a peer was to be connected to.
pub fn connect_to_peer(address: &str, connection: Connection) -> (result: Result<(), String>)
    ensures
        match connection {
            Connection::Connected => result == Ok::<(), String>(()),
            Connection::NoSocket { description } => result matches Err(message) && message@
                == "Could not connect to address "@ + address@ + ", "@ + description@,
            Connection::NoPeer { description } => result matches Err(message) && message@
                == "RPC error: "@ + description@,
        },
{
    match connection {
        Connection::Connected => Ok(()),
        Connection::NoSocket { description } => {
            let mut message = strings::joined("Could not connect to address ", address);
            strings::push_chars(&mut message, ", ");
            strings::push_chars(&mut message, description.as_str());
            Err(message)
        },
        Connection::NoPeer { description } => Err(
            strings::joined("RPC error: ", description.as_str()),
        ),
    }
}

/// What a client is told: an answer, or that its message could not be read.
pub fn report_input_errors(value: Result<OutgoingMessage, String>) -> (message: OutgoingMessage)
    ensures
        match value {
            Ok(answer) => message == answer,
            Err(error) => message.is_error("Error reading message on server: "@ + error@),
        },
{
    match value {
        Ok(answer) => answer,
        Err(error) => OutgoingMessage::Error {
            description: strings::joined("Error reading message on server: ", error.as_str()),
        },
    }
}

/// A client that is told of an error in certain words gets just these words.
pub proof fn law_error_is_told_in_words(message: OutgoingMessage, words: Seq<char>)
    requires
        message.is_error(words),
    ensures
        message is Error,
        message->description@ == words,
{
}

/// A number with the marks of a random one is told apart by six of its bits.
pub proof fn law_marks_of_a_random_id(id: ReplicaId)
    requires
        is_random_id(id),
    ensures
        id & 0xf000_c000_0000_0000_0000u128 == 0x4000_8000_0000_0000_0000u128,
{
    assert((id >> 76) & 0xf == 4 && (id >> 62) & 3 == 2 ==> id
        & 0xf000_c000_0000_0000_0000u128 == 0x4000_8000_0000_0000_0000u128) by (bit_vector);
}

} // verus!
