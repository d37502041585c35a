//! Operations that are kept for several trees.

use std::collections::HashMap;

use vstd::prelude::*;

use crate::buffer::ReplicaId;
use crate::network::{self, copy_operation, copy_operations, Operation, OperationEnvelope};
use crate::storage::{Delivery, Storage};

verus! {

/// All operations so far, and the trees that are to know of them.
pub struct Database<T> {
    operations: Vec<Operation>,
    trees: HashMap<ReplicaId, T>,
}

impl<T> Database<T> {
    /// The tree of each replica.
    pub closed spec fn trees(&self) -> Map<ReplicaId, T> {
        self.trees@
    }

    pub fn new() -> (database: Database<T>)
        ensures
            database.operations() == Seq::<Seq<u8>>::empty(),
            database.trees() == Map::<ReplicaId, T>::empty(),
    {
        let database = Database { operations: Vec::new(), trees: HashMap::new() };
        assert(database.operations() =~= Seq::empty());
        database
    }

    /// Adds the tree of a replica, in place of one that it may have.
    pub fn add_tree(&mut self, replica_id: ReplicaId, tree: T)
        ensures
            final(self).operations() == old(self).operations(),
            final(self).trees() == old(self).trees().insert(replica_id, tree),
    {
        broadcast use vstd::std_specs::hash::group_hash_axioms;

        self.trees.insert(replica_id, tree);
    }

    /// The tree of a replica.
    pub fn tree(&self, replica_id: ReplicaId) -> (tree: Option<&T>)
        ensures
            tree == (if self.trees().contains_key(replica_id) {
                Some(&self.trees()[replica_id])
            } else {
                None
            }),
    {
        broadcast use vstd::std_specs::hash::group_hash_axioms;

        self.trees.get(&replica_id)
    }
}

impl<T> Storage for Database<T> {
    closed spec fn operations(&self) -> Seq<Seq<u8>> {
        network::operation_models(self.operations@)
    }

    open spec fn replicas(&self) -> Set<ReplicaId> {
        self.trees().dom()
    }

    fn broadcast(&mut self, replica_id: ReplicaId, envelopes: &Vec<OperationEnvelope>) -> (
        delivery: Delivery)
        ensures
            final(self).trees() == old(self).trees(),
    {
        broadcast use vstd::std_specs::hash::group_hash_axioms;

        let ghost new = network::operations_in(network::envelope_models(envelopes@));
        let operations = copy_operations(envelopes);
        let mut i: usize = 0;
        assert(self.operations() =~= old(self).operations() + new.take(0));
        while i < operations.len()
            invariant
                i <= operations@.len(),
                new == network::operation_models(operations@),
                self.trees() == old(self).trees(),
                self.operations() == old(self).operations() + new.take(i as int),
            decreases operations@.len() - i,
        {
            let ghost before = self.operations();
            self.operations.push(copy_operation(&operations[i]));
            proof {
                assert(self.operations() =~= before.push(new[i as int]));
                assert(self.operations() =~= old(self).operations() + new.take(i + 1));
            }
            i += 1;
        }
        assert(new.take(i as int) =~= new);
        let mut replica_ids: Vec<ReplicaId> = Vec::new();
        if operations.len() > 0 {
            for key in all: self.trees.keys()
                invariant
                    all.seq().unref().to_set() == self.trees@.dom(),
                    all.seq().no_duplicates(),
                    replica_ids@.no_duplicates(),
                    forall|id: ReplicaId| #[trigger]
                        replica_ids@.contains(id) <==> id != replica_id && all.seq().unref().take(
                            all.index() as int,
                        ).contains(id),
                    all.index() == all.seq().len() ==> (forall|id: ReplicaId| #[trigger]
                        replica_ids@.contains(id) <==> id != replica_id
                            && all.seq().unref().contains(id)),
            {
                let ghost before = replica_ids@;
                let ghost keys = all.seq().unref();
                let ghost index = all.index() as int;
                proof {
                    assert(keys[index] == *key);
                    assert(keys.take(index + 1) =~= keys.take(index).push(*key));
                    assert(!keys.take(index).contains(*key)) by {
                        if keys.take(index).contains(*key) {
                            let k = choose|k: int| 0 <= k < index && keys.take(index)[k] == *key;
                            assert(all.seq()[k] == all.seq()[index]);
                        }
                    }
                }
                if *key != replica_id {
                    assert(!before.contains(*key));
                    replica_ids.push(*key);
                    assert(replica_ids@.no_duplicates()) by {
                        assert forall|i: int, j: int|
                            0 <= i < replica_ids@.len() && 0 <= j < replica_ids@.len() && i
                                != j implies replica_ids@[i] != replica_ids@[j] by {
                            assert(i < before.len() ==> before.contains(before[i]));
                            assert(j < before.len() ==> before.contains(before[j]));
                        }
                    }
                }
                proof {
                    assert forall|id: ReplicaId| #[trigger] replica_ids@.contains(id) <==> id
                        != replica_id && keys.take(index + 1).contains(id) by {
                        lemma_push_contains(before, *key, id);
                        lemma_push_contains(keys.take(index), *key, id);
                    }
                    assert(keys.take(keys.len() as int) =~= keys);
                }
            }
            proof {
                assert(replica_ids@.to_set() =~= self.trees().dom().remove(replica_id)) by {
                    assert forall|id: ReplicaId| replica_ids@.to_set().contains(id)
                        == self.trees().dom().remove(replica_id).contains(id) by {
                        assert(replica_ids@.to_set().contains(id) == replica_ids@.contains(id));
                    }
                }
            }
        }
        Delivery { replica_ids, operations }
    }

    fn fetch(&self) -> (operations: Vec<Operation>) {
        let mut operations: Vec<Operation> = Vec::new();
        let mut i: usize = 0;
        while i < self.operations.len()
            invariant
                i <= self.operations@.len(),
                network::operation_models(operations@) == self.operations().take(i as int),
            decreases self.operations@.len() - i,
        {
            let ghost before = operations@;
            operations.push(copy_operation(&self.operations[i]));
            proof {
                assert(network::operation_models(operations@) =~= network::operation_models(
                    before,
                ).push(self.operations()[i as int]));
                assert(network::operation_models(operations@) =~= self.operations().take(i + 1));
            }
            i += 1;
        }
        assert(network::operation_models(operations@) =~= self.operations());
        operations
    }
}

proof fn lemma_push_contains(ids: Seq<ReplicaId>, more: ReplicaId, id: ReplicaId)
    ensures
        ids.push(more).contains(id) <==> ids.contains(id) || id == more,
{
    if ids.contains(id) {
        let i = choose|i: int| 0 <= i < ids.len() && ids[i] == id;
        assert(ids.push(more)[i] == id);
    }
    if id == more {
        assert(ids.push(more)[ids.len() as int] == id);
    }
}

} // verus!
