//! Commits: what is asked of them, and what is answered.

use vstd::prelude::*;

use crate::error::RpcError;
use crate::fs::DirEntry;

verus! {

/// Which commit is meant.
pub type Oid = [u8; 20];

/// What a client asks about commits.
#[derive(Debug)]
pub enum RpcRequest {
    BaseEntries { oid: Oid },
    BaseText { oid: Oid, path: String },
}

/// What a client is answered.
#[derive(Debug)]
pub enum RpcResponse {
    BaseEntries(Vec<DirEntry>),
    BaseText(String),
}

/// Reaches commits through a connection.
pub struct RemoteGitProvider;

impl RemoteGitProvider {
    /// What is asked for to list a commit.
    pub fn entries_request(oid: Oid) -> (request: RpcRequest)
        ensures
            request == (RpcRequest::BaseEntries { oid }),
    {
        RpcRequest::BaseEntries { oid }
    }

    /// What comes of it that a commit was to be listed.
    pub fn base_entries(response: Result<RpcResponse, RpcError>) -> (result: Result<
        Vec<DirEntry>,
        RpcError,
    >)
        requires
            !(response matches Ok(RpcResponse::BaseText(_))),
        ensures
            match response {
                Ok(RpcResponse::BaseEntries(entries)) => result == Ok::<Vec<DirEntry>, RpcError>(
                    entries,
                ),
                Ok(RpcResponse::BaseText(_)) => false,
                Err(error) => result == Err::<Vec<DirEntry>, RpcError>(error),
            },
    {
        match response {
            Ok(RpcResponse::BaseEntries(entries)) => Ok(entries),
            Ok(RpcResponse::BaseText(_)) => Ok(Vec::new()),
            Err(error) => Err(error),
        }
    }

    /// What is asked for to read a file of a commit.
    pub fn text_request(oid: Oid, path: String) -> (request: RpcRequest)
        ensures
            request == (RpcRequest::BaseText { oid, path }),
    {
        RpcRequest::BaseText { oid, path }
    }

    /// What comes of it that a file of a commit was to be read.
    pub fn base_text(response: Result<RpcResponse, RpcError>) -> (result: Result<String, RpcError>)
        requires
            !(response matches Ok(RpcResponse::BaseEntries(_))),
        ensures
            match response {
                Ok(RpcResponse::BaseText(text)) => result == Ok::<String, RpcError>(text),
                Ok(RpcResponse::BaseEntries(_)) => false,
                Err(error) => result == Err::<String, RpcError>(error),
            },
    {
        match response {
            Ok(RpcResponse::BaseText(text)) => Ok(text),
            Ok(RpcResponse::BaseEntries(_)) => Ok(String::new()),
            Err(error) => Err(error),
        }
    }
}

/// Serves commits to a client.
pub struct GitProviderService;

impl GitProviderService {
    /// What a client is answered: the listing of a commit, or the text of a file in
    /// it, as the client asked.
    pub fn request<E, T>(request: RpcRequest, base_entries: E, base_text: T) -> (response:
        RpcResponse) where E: FnOnce(Oid) -> Vec<DirEntry>, T: FnOnce(Oid, String) -> String
        requires
            request matches RpcRequest::BaseEntries { oid } ==> base_entries.requires((oid,)),
            request matches RpcRequest::BaseText { oid, path } ==> base_text.requires((oid, path)),
        ensures
            match (request, response) {
                (
                    RpcRequest::BaseEntries { oid },
                    RpcResponse::BaseEntries(entries),
                ) => base_entries.ensures((oid,), entries),
                (
                    RpcRequest::BaseText { oid, path },
                    RpcResponse::BaseText(text),
                ) => base_text.ensures((oid, path), text),
                _ => false,
            },
    {
        match request {
            RpcRequest::BaseEntries { oid } => RpcResponse::BaseEntries(base_entries(oid)),
            RpcRequest::BaseText { oid, path } => RpcResponse::BaseText(base_text(oid, path)),
        }
    }
}

} // verus!
