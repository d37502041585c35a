//! Where operations are kept.

use vstd::prelude::*;

use crate::buffer::ReplicaId;
use crate::network::{self, Operation, OperationEnvelope};

verus! {

/// Operations to be applied to the trees of some replicas.
pub struct Delivery {
    pub replica_ids: Vec<ReplicaId>,
    pub operations: Vec<Operation>,
}

/// Keeps the operations of several replicas.
pub trait Storage {
    /// All operations so far, in order.
    spec fn operations(&self) -> Seq<Seq<u8>>;

    /// The replicas that are to know of operations.
    spec fn replicas(&self) -> Set<ReplicaId>;

    /// Keeps the operations of a replica, and says what is to be applied where: all of
    /// them to the trees of all other replicas. Where there are none, there is nothing
    /// to apply.
    fn broadcast(&mut self, replica_id: ReplicaId, envelopes: &Vec<OperationEnvelope>) -> (
        delivery: Delivery)
        ensures
            final(self).replicas() == old(self).replicas(),
            final(self).operations() == old(self).operations() + network::operations_in(
                network::envelope_models(envelopes@),
            ),
            network::operation_models(delivery.operations@) == network::operations_in(
                network::envelope_models(envelopes@),
            ),
            delivery.replica_ids@.no_duplicates(),
            envelopes@.len() == 0 ==> delivery.replica_ids@.len() == 0,
            envelopes@.len() > 0 ==> delivery.replica_ids@.to_set()
                == old(self).replicas().remove(replica_id),
    ;

    /// All operations so far, in order.
    fn fetch(&self) -> (operations: Vec<Operation>)
        ensures
            network::operation_models(operations@) == self.operations(),
    ;
}

/// Keeps operations at the other end of a connection.
pub struct RemoteStorage;

/// What a client asks of a storage.
#[derive(Debug)]
pub enum RpcRequest {
    Broadcast(Vec<OperationEnvelope>),
    Fetch,
}

/// What a client is answered.
#[derive(Debug)]
pub enum RpcResponse {
    Fetch(Vec<Operation>),
}

/// What a client is told without asking.
#[derive(Debug)]
pub enum RpcUpdate {
    Operation(Operation),
}

/// Serves a storage to a client.
pub struct StorageService {}

impl StorageService {
    /// A client is told nothing first.
    pub fn init(&self) {
    }
}

} // verus!
