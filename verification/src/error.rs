//! What can go wrong.

use vstd::prelude::*;

verus! {

/// An error of the tree that holds the texts.
#[derive(Clone, Copy, Debug, PartialEq, Eq, Structural)]
pub enum MemoError {
    InvalidPath,
    InvalidFileId,
    InvalidBufferId,
    InvalidDirEntry,
    InvalidOperation,
    InvalidLocalSelectionSet(u64),
    OffsetOutOfRange,
    CursorExhausted,
}

/// An error of a connection to a peer.
#[derive(Debug)]
pub enum RpcError {
    IoError(String),
}

impl RpcError {
    /// Two errors are the same where they are of one kind and say the same.
    pub open spec fn same(self, other: RpcError) -> bool {
        match (self, other) {
            (RpcError::IoError(a), RpcError::IoError(b)) => a@ == b@,
        }
    }
}

impl PartialEq for RpcError {
    fn eq(&self, other: &RpcError) -> (equal: bool) {
        match (self, other) {
            (RpcError::IoError(a), RpcError::IoError(b)) => *a == *b,
        }
    }
}

impl vstd::std_specs::cmp::PartialEqSpecImpl for RpcError {
    open spec fn obeys_eq_spec() -> bool {
        true
    }

    open spec fn eq_spec(&self, other: &RpcError) -> bool {
        self.same(*other)
    }
}

/// An error of this library.
#[derive(Debug)]
pub enum Error {
    Memo(MemoError),
    Rpc(RpcError),
}

impl PartialEq for Error {
    fn eq(&self, other: &Error) -> (equal: bool) {
        match (self, other) {
            (Error::Memo(a), Error::Memo(b)) => *a == *b,
            (Error::Rpc(a), Error::Rpc(b)) => *a == *b,
            (Error::Rpc(_), Error::Memo(_)) => false,
            (Error::Memo(_), Error::Rpc(_)) => false,
        }
    }
}

impl vstd::std_specs::cmp::PartialEqSpecImpl for Error {
    open spec fn obeys_eq_spec() -> bool {
        true
    }

    open spec fn eq_spec(&self, other: &Error) -> bool {
        match (self, other) {
            (Error::Memo(a), Error::Memo(b)) => a == b,
            (Error::Rpc(a), Error::Rpc(b)) => a.same(*b),
            _ => false,
        }
    }
}

impl From<MemoError> for Error {
    fn from(error: MemoError) -> (result: Error) {
        Error::Memo(error)
    }
}

impl vstd::std_specs::convert::FromSpecImpl<MemoError> for Error {
    open spec fn obeys_from_spec() -> bool {
        true
    }

    open spec fn from_spec(error: MemoError) -> Error {
        Error::Memo(error)
    }
}

impl From<RpcError> for Error {
    fn from(error: RpcError) -> (result: Error) {
        Error::Rpc(error)
    }
}

impl vstd::std_specs::convert::FromSpecImpl<RpcError> for Error {
    open spec fn obeys_from_spec() -> bool {
        true
    }

    open spec fn from_spec(error: RpcError) -> Error {
        Error::Rpc(error)
    }
}

/// Errors are equal just where they are of one kind and say the same.
pub proof fn law_equal_errors(first: Error, second: Error)
    ensures
        vstd::std_specs::cmp::PartialEqSpec::eq_spec(&first, &second) <==> {
            ||| first is Memo && second is Memo && first->Memo_0 == second->Memo_0
            ||| first is Rpc && second is Rpc && (first->Rpc_0)->0@ == (second->Rpc_0)->0@
        },
{
}

} // verus!
