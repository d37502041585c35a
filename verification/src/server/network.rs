//! Operations that are told through this process.

use futures::unsync::mpsc::{UnboundedReceiver, UnboundedSender};
use vstd::prelude::*;

use crate::error::Error;
use crate::network::{
    self, copy_operation, copy_operations, EnvelopeModel, NetworkNotify, Operation,
    OperationEnvelope,
};

verus! {

/// What was told so far.
pub struct NetworkProviderInner {
    envelopes: Vec<OperationEnvelope>,
}

impl View for NetworkProviderInner {
    type V = Seq<EnvelopeModel>;

    closed spec fn view(&self) -> Seq<EnvelopeModel> {
        network::envelope_models(self.envelopes@)
    }
}

impl NetworkProviderInner {
    pub fn new() -> (inner: Self)
        ensures
            inner@ == Seq::<EnvelopeModel>::empty(),
    {
        let inner = NetworkProviderInner { envelopes: Vec::new() };
        assert(inner@ =~= Seq::empty());
        inner
    }

    pub fn insert(&mut self, envelope: OperationEnvelope)
        ensures
            final(self)@ == old(self)@.push(envelope@),
    {
        self.envelopes.push(envelope);
        assert(self@ =~= old(self)@.push(envelope@));
    }
}

/// Keeps all operations of a workspace, and tells them to whoever wants to know.
pub struct NetworkProvider {
    path: String,
    inner: NetworkProviderInner,
    notify: NetworkNotify,
    subscribers: Ghost<Seq<UnboundedSender<Operation>>>,
}

impl NetworkProvider {
    /// The path of the workspace.
    pub closed spec fn spec_path(&self) -> Seq<char> {
        self.path@
    }

    /// Whom operations are told.
    pub closed spec fn told(&self) -> Seq<UnboundedSender<Operation>> {
        self.notify@
    }

    pub fn new(path: String) -> (provider: Self)
        ensures
            provider.spec_path() == path@,
            network::NetworkProvider::log(&provider) == Seq::<EnvelopeModel>::empty(),
            network::NetworkProvider::subscribers(&provider) == Seq::<
                UnboundedSender<Operation>,
            >::empty(),
            provider.told() == Seq::<UnboundedSender<Operation>>::empty(),
    {
        NetworkProvider {
            path,
            inner: NetworkProviderInner::new(),
            notify: NetworkNotify::new(),
            subscribers: Ghost(Seq::empty()),
        }
    }

    /// The path of the workspace.
    pub fn path(&self) -> (path: &str)
        ensures
            path@ == self.spec_path(),
    {
        self.path.as_str()
    }

    /// Tells one operation, and keeps it.
    fn broadcast_one(&mut self, envelope: OperationEnvelope)
        ensures
            final(self).inner@ == old(self).inner@.push(envelope@),
            final(self).path == old(self).path,
            final(self).subscribers == old(self).subscribers,
            network::told_one(old(self).told(), envelope.operation@, final(self).told()),
    {
        self.notify.broadcast_op(copy_operation(&envelope.operation));
        self.inner.insert(envelope);
    }
}

impl network::NetworkProvider for NetworkProvider {
    closed spec fn log(&self) -> Seq<EnvelopeModel> {
        self.inner@
    }

    /// Nothing fails here.
    open spec fn failures(&self) -> nat {
        0
    }

    closed spec fn subscribers(&self) -> Seq<UnboundedSender<Operation>> {
        self.subscribers@
    }

    /// Tells and keeps operations one by one.
    fn broadcast(&mut self, envelopes: Vec<OperationEnvelope>) -> (result: Result<(), Error>)
        ensures
            result is Ok,
            final(self).spec_path() == old(self).spec_path(),
            network::told_all(
                old(self).told(),
                network::operations_in(network::envelope_models(envelopes@)),
                final(self).told(),
            ),
    {
        let ghost all = network::envelope_models(envelopes@);
        let ghost operations = network::operations_in(all);
        let ghost before = self.inner@;
        let ghost mut count: int = 0;
        let ghost mut rounds: Seq<Seq<UnboundedSender<Operation>>> = seq![self.told()];
        let mut rest = envelopes;
        assert(network::envelope_models(rest@) =~= all.skip(0));
        assert(before =~= before + all.take(0));
        assert(operations.take(0) =~= Seq::empty());
        while rest.len() > 0
            invariant
                0 <= count <= all.len(),
                operations == network::operations_in(all),
                network::envelope_models(rest@) == all.skip(count),
                self.inner@ == before + all.take(count),
                self.path == old(self).path,
                self.subscribers == old(self).subscribers,
                network::told_in_rounds(rounds, operations.take(count)),
                rounds.first() == old(self).told(),
                rounds.last() == self.told(),
            decreases rest@.len(),
        {
            let ghost left = rest@;
            let ghost told = self.told();
            let envelope = rest.remove(0);
            proof {
                assert(network::envelope_models(left).len() == all.len() - count);
                assert(network::envelope_models(left)[0] == all.skip(count)[0]);
            }
            self.broadcast_one(envelope);
            proof {
                count = count + 1;
                rounds = rounds.push(self.told());
                assert forall|k: int| 0 <= k < count implies network::told_one(
                    rounds[k],
                    #[trigger] operations.take(count)[k],
                    rounds[k + 1],
                ) by {
                    if k < count - 1 {
                        assert(operations.take(count - 1)[k] == operations[k]);
                    } else {
                        assert(operations[k] == all[k].operation);
                    }
                }
                assert(network::envelope_models(rest@) =~= network::envelope_models(left).skip(1));
                assert(network::envelope_models(rest@) =~= all.skip(count));
                assert(self.inner@ =~= before + all.take(count));
            }
        }
        proof {
            assert(network::envelope_models(rest@).len() == all.len() - count);
            assert(all.take(count) =~= all);
            assert(operations.take(count) =~= operations);
        }
        Ok(())
    }

    fn fetch(&self) -> (result: Result<Vec<Operation>, Error>)
        ensures
            result is Ok,
    {
        Ok(copy_operations(&self.inner.envelopes))
    }

    /// The operations that are told from now on, to one more than before.
    fn updates(&mut self) -> (updates: UnboundedReceiver<Operation>)
        ensures
            final(self).spec_path() == old(self).spec_path(),
            exists|tx: UnboundedSender<Operation>| #[trigger]
                network::are_ends(tx, updates) && final(self).told() == old(self).told().push(tx)
                    && final(self).subscribers() == old(self).subscribers().push(tx),
    {
        let updates = self.notify.updates();
        proof {
            let tx = choose|tx: UnboundedSender<Operation>| #[trigger]
                network::are_ends(tx, updates) && self.notify@ == old(self).notify@.push(tx);
            self.subscribers@ = self.subscribers@.push(tx);
        }
        updates
    }
}

} // verus!
