//! Operations, and how they get from one replica to the others.

use futures::unsync::mpsc::{self, SendError, UnboundedReceiver, UnboundedSender};
use vstd::prelude::*;

use crate::error::{Error, RpcError};
use crate::git::Oid;

verus! {

/// A change that replicas tell each other of.
#[derive(Debug)]
pub struct Operation {
    pub payload: Vec<u8>,
}

impl View for Operation {
    type V = Seq<u8>;

    open spec fn view(&self) -> Seq<u8> {
        self.payload@
    }
}

/// An operation together with the commit that it is based on.
#[derive(Debug)]
pub struct OperationEnvelope {
    pub epoch_head: Option<Oid>,
    pub operation: Operation,
}

/// An envelope as a mathematical value.
pub struct EnvelopeModel {
    pub epoch_head: Option<Oid>,
    pub operation: Seq<u8>,
}

impl View for OperationEnvelope {
    type V = EnvelopeModel;

    open spec fn view(&self) -> EnvelopeModel {
        EnvelopeModel { epoch_head: self.epoch_head, operation: self.operation@ }
    }
}

pub open spec fn operation_models(operations: Seq<Operation>) -> Seq<Seq<u8>> {
    operations.map_values(|operation: Operation| operation@)
}

pub open spec fn envelope_models(envelopes: Seq<OperationEnvelope>) -> Seq<EnvelopeModel> {
    envelopes.map_values(|envelope: OperationEnvelope| envelope@)
}

/// The operations in some envelopes.
pub open spec fn operations_in(envelopes: Seq<EnvelopeModel>) -> Seq<Seq<u8>> {
    envelopes.map_values(|envelope: EnvelopeModel| envelope.operation)
}

/// A copy of an operation.
pub fn copy_operation(operation: &Operation) -> (copy: Operation)
    ensures
        copy@ == operation@,
{
    let mut payload: Vec<u8> = Vec::new();
    let mut i: usize = 0;
    while i < operation.payload.len()
        invariant
            i <= operation.payload@.len(),
            payload@ == operation.payload@.take(i as int),
        decreases operation.payload@.len() - i,
    {
        payload.push(operation.payload[i]);
        i += 1;
        assert(payload@ =~= operation.payload@.take(i as int));
    }
    assert(payload@ =~= operation.payload@);
    Operation { payload }
}

/// Copies of the operations in some envelopes, in order.
pub fn copy_operations(envelopes: &Vec<OperationEnvelope>) -> (operations: Vec<Operation>)
    ensures
        operation_models(operations@) == operations_in(envelope_models(envelopes@)),
{
    let ghost all = operations_in(envelope_models(envelopes@));
    let mut operations: Vec<Operation> = Vec::new();
    let mut i: usize = 0;
    while i < envelopes.len()
        invariant
            i <= envelopes@.len(),
            all == operations_in(envelope_models(envelopes@)),
            operation_models(operations@) == all.take(i as int),
        decreases envelopes@.len() - i,
    {
        let ghost before = operations@;
        operations.push(copy_operation(&envelopes[i].operation));
        proof {
            assert(operation_models(operations@) =~= operation_models(before).push(all[i as int]));
            assert(operation_models(operations@) =~= all.take(i + 1));
        }
        i += 1;
    }
    assert(operation_models(operations@) =~= all);
    operations
}

/// The sending end of an unbounded channel.
#[verifier::external_type_specification]
#[verifier::external_body]
#[verifier::reject_recursive_types(T)]
pub struct ExUnboundedSender<T>(UnboundedSender<T>);

/// The receiving end of an unbounded channel.
#[verifier::external_type_specification]
#[verifier::external_body]
#[verifier::reject_recursive_types(T)]
pub struct ExUnboundedReceiver<T>(UnboundedReceiver<T>);

/// What is left of a message that could not be sent.
#[verifier::external_type_specification]
#[verifier::external_body]
#[verifier::reject_recursive_types(T)]
pub struct ExSendError<T>(SendError<T>);

/// `futures::unsync::mpsc::unbounded`: the two ends of a new channel. That what is
/// sent into the one comes out of the other is not stated: neither end says what is
/// in the channel.
pub assume_specification<T>[ mpsc::unbounded::<T> ]() -> (UnboundedSender<T>, UnboundedReceiver<T>)
;

/// `UnboundedSender::unbounded_send` puts a message into a channel, and fails where
/// the receiving end is gone. Whether it fails is not stated: that depends on who
/// holds the receiving end at the time.
pub assume_specification<T>[ UnboundedSender::<T>::unbounded_send ](
    sender: &UnboundedSender<T>,
    msg: T,
) -> (result: Result<(), SendError<T>>)
;

/// Whether two ends came out of one call that made a channel.
pub open spec fn are_ends<T>(tx: UnboundedSender<T>, rx: UnboundedReceiver<T>) -> bool {
    call_ensures(mpsc::unbounded::<T>, (), (tx, rx))
}

/// Whether an operation was sent to a sender, and the sender turned out to be closed
/// or not.
pub open spec fn sent_to(
    sender: UnboundedSender<Operation>,
    operation: Seq<u8>,
    closed: bool,
) -> bool {
    exists|copy: Operation, result: Result<(), SendError<Operation>>|
        copy@ == operation && (result is Err) == closed && #[trigger] call_ensures(
            UnboundedSender::<Operation>::unbounded_send,
            (&sender, copy),
            result,
        )
}

/// Whether an operation was sent to each of some senders, which turned out to be
/// closed or not.
pub open spec fn sent_to_each(
    senders: Seq<UnboundedSender<Operation>>,
    operation: Seq<u8>,
    closed: Seq<bool>,
) -> bool {
    &&& closed.len() == senders.len()
    &&& forall|i: int|
        0 <= i < senders.len() ==> sent_to(#[trigger] senders[i], operation, closed[i])
}

/// Whether an operation was sent to each of some senders, and those are left that
/// turned out not to be closed.
pub open spec fn told_one(
    before: Seq<UnboundedSender<Operation>>,
    operation: Seq<u8>,
    after: Seq<UnboundedSender<Operation>>,
) -> bool {
    exists|closed: Seq<bool>|
        sent_to_each(before, operation, closed) && after == #[trigger] swept(before, closed, 0)
}

/// Whether operations were sent one by one, each to those who were left of the ones
/// before.
pub open spec fn told_in_rounds(
    rounds: Seq<Seq<UnboundedSender<Operation>>>,
    operations: Seq<Seq<u8>>,
) -> bool {
    &&& rounds.len() == operations.len() + 1
    &&& forall|k: int|
        0 <= k < operations.len() ==> told_one(
            rounds[k],
            #[trigger] operations[k],
            rounds[k + 1],
        )
}

/// Whether operations were sent one by one, first to all of some senders and then to
/// those who were left, and some are left in the end.
pub open spec fn told_all(
    before: Seq<UnboundedSender<Operation>>,
    operations: Seq<Seq<u8>>,
    after: Seq<UnboundedSender<Operation>>,
) -> bool {
    exists|rounds: Seq<Seq<UnboundedSender<Operation>>>| #[trigger]
        told_in_rounds(rounds, operations) && rounds.first() == before && rounds.last() == after
}

/// What is left of some senders once those are dropped that are closed, from the
/// last to the one with a given number. The last of what is left takes the place of
/// one that is dropped.
pub open spec fn swept<S>(senders: Seq<S>, closed: Seq<bool>, from: int) -> Seq<S>
    decreases senders.len() - from,
{
    if from >= senders.len() {
        senders
    } else {
        let rest = swept(senders, closed, from + 1);
        if closed[from] {
            rest.update(from, rest.last()).drop_last()
        } else {
            rest
        }
    }
}

/// Whether a sender stands at a given number or behind it.
pub open spec fn stands_from<S>(senders: Seq<S>, from: int, sender: S) -> bool {
    exists|k: int| from <= k < senders.len() && #[trigger] senders[k] == sender
}

/// Whether a sender stands open at a given number or behind it.
pub open spec fn open_from<S>(senders: Seq<S>, closed: Seq<bool>, from: int, sender: S) -> bool {
    exists|i: int| from <= i < senders.len() && !closed[i] && #[trigger] senders[i] == sender
}

/// The senders before a given number are as they were, and are followed by just the
/// others that are open.
proof fn lemma_swept<S>(senders: Seq<S>, closed: Seq<bool>, from: int)
    requires
        0 <= from <= senders.len(),
        closed.len() == senders.len(),
    ensures
        from <= swept(senders, closed, from).len() <= senders.len(),
        swept(senders, closed, from).take(from) == senders.take(from),
        forall|sender: S| #[trigger]
            stands_from(swept(senders, closed, from), from, sender) <==> open_from(
                senders,
                closed,
                from,
                sender,
            ),
    decreases senders.len() - from,
{
    let after = swept(senders, closed, from);
    if from < senders.len() {
        let rest = swept(senders, closed, from + 1);
        lemma_swept(senders, closed, from + 1);
        assert(rest[from] == senders[from]) by {
            assert(rest.take(from + 1)[from] == senders.take(from + 1)[from]);
        }
        assert(after.take(from) =~= senders.take(from)) by {
            assert forall|i: int| 0 <= i < from implies after[i] == senders[i] by {
                assert(rest.take(from + 1)[i] == senders.take(from + 1)[i]);
            }
        }
        assert forall|sender: S| #[trigger] stands_from(after, from, sender) <==> open_from(
            senders,
            closed,
            from,
            sender,
        ) by {
            if stands_from(after, from, sender) {
                let k = choose|k: int| from <= k < after.len() && #[trigger] after[k] == sender;
                if k == from && !closed[from] {
                    assert(senders[from] == sender);
                } else {
                    let place = if k == from {
                        rest.len() - 1
                    } else {
                        k
                    };
                    assert(rest[place] == sender);
                    assert(stands_from(rest, from + 1, sender));
                    let i = choose|i: int|
                        from + 1 <= i < senders.len() && !closed[i] && #[trigger] senders[i]
                            == sender;
                    assert(senders[i] == sender);
                }
            }
            if open_from(senders, closed, from, sender) {
                let i = choose|i: int|
                    from <= i < senders.len() && !closed[i] && #[trigger] senders[i] == sender;
                if i == from {
                    assert(after[from] == sender);
                } else {
                    assert(open_from(senders, closed, from + 1, sender));
                    assert(stands_from(rest, from + 1, sender));
                    let k = choose|k: int|
                        from + 1 <= k < rest.len() && #[trigger] rest[k] == sender;
                    if closed[from] && k == rest.len() - 1 {
                        assert(after[from] == sender);
                    } else {
                        assert(after[k] == sender);
                    }
                }
            }
        }
    }
}

/// Whether a sender before a given number is closed does not matter.
proof fn lemma_swept_agrees<S>(senders: Seq<S>, some: Seq<bool>, other: Seq<bool>, from: int)
    requires
        forall|i: int| from <= i < senders.len() ==> some[i] == other[i],
    ensures
        swept(senders, some, from) == swept(senders, other, from),
    decreases senders.len() - from,
{
    if from < senders.len() {
        lemma_swept_agrees(senders, some, other, from + 1);
    }
}

/// Whoever is left once operations were told was there before.
pub proof fn law_nobody_joins(
    before: Seq<UnboundedSender<Operation>>,
    operations: Seq<Seq<u8>>,
    after: Seq<UnboundedSender<Operation>>,
    sender: UnboundedSender<Operation>,
)
    requires
        told_all(before, operations, after),
        after.contains(sender),
    ensures
        before.contains(sender),
{
    let rounds = choose|rounds: Seq<Seq<UnboundedSender<Operation>>>| #[trigger]
        told_in_rounds(rounds, operations) && rounds.first() == before && rounds.last() == after;
    lemma_nobody_joins(rounds, operations, operations.len() as int, sender);
}

/// Whoever is left after some rounds was there before them.
proof fn lemma_nobody_joins(
    rounds: Seq<Seq<UnboundedSender<Operation>>>,
    operations: Seq<Seq<u8>>,
    count: int,
    sender: UnboundedSender<Operation>,
)
    requires
        told_in_rounds(rounds, operations),
        0 <= count <= operations.len(),
        rounds[count].contains(sender),
    ensures
        rounds[0].contains(sender),
    decreases count,
{
    if count > 0 {
        let between = rounds[count - 1];
        let operation = operations[count - 1];
        let closed = choose|closed: Seq<bool>|
            sent_to_each(between, operation, closed) && rounds[count] == #[trigger] swept(
                between,
                closed,
                0,
            );
        law_open_senders_stay(between, closed, sender);
        let i = choose|i: int|
            0 <= i < between.len() && !closed[i] && #[trigger] between[i] == sender;
        assert(between.contains(between[i]));
        lemma_nobody_joins(rounds, operations, count - 1, sender);
    }
}

/// Just the senders that are open are left.
pub proof fn law_open_senders_stay<S>(senders: Seq<S>, closed: Seq<bool>, sender: S)
    requires
        closed.len() == senders.len(),
    ensures
        swept(senders, closed, 0).contains(sender) <==> open_from(senders, closed, 0, sender),
{
    lemma_swept(senders, closed, 0);
    let after = swept(senders, closed, 0);
    assert(stands_from(after, 0, sender) <==> open_from(senders, closed, 0, sender));
    if after.contains(sender) {
        let k = choose|k: int| 0 <= k < after.len() && after[k] == sender;
        assert(after[k] == sender);
    }
}

/// Whether a way of sending, handed an operation for a sender, says that the sender
/// is closed or that it is not.
pub open spec fn handed<F>(
    send: F,
    sender: UnboundedSender<Operation>,
    operation: Seq<u8>,
    closed: bool,
) -> bool where F: Fn(&UnboundedSender<Operation>, Operation) -> bool {
    exists|copy: Operation, sent: bool|
        copy@ == operation && sent != closed && #[trigger] send.ensures((&sender, copy), sent)
}

/// Whether a way of sending says of each sender, handed an operation for it, whether
/// it is closed.
pub open spec fn handed_out<F>(
    send: F,
    senders: Seq<UnboundedSender<Operation>>,
    operation: Seq<u8>,
    closed: Seq<bool>,
) -> bool where F: Fn(&UnboundedSender<Operation>, Operation) -> bool {
    &&& closed.len() == senders.len()
    &&& forall|i: int|
        0 <= i < senders.len() ==> handed(send, #[trigger] senders[i], operation, closed[i])
}

/// Whom operations are told.
pub struct NetworkNotify(Vec<UnboundedSender<Operation>>);

impl View for NetworkNotify {
    type V = Seq<UnboundedSender<Operation>>;

    closed spec fn view(&self) -> Seq<UnboundedSender<Operation>> {
        self.0@
    }
}

impl NetworkNotify {
    pub fn new() -> (notify: NetworkNotify)
        ensures
            notify@ == Seq::<UnboundedSender<Operation>>::empty(),
    {
        NetworkNotify(Vec::new())
    }

    /// Tells an operation in a given way: each sender is handed a copy of it, once and
    /// from the last to the first, and those are dropped that do not take it.
    pub fn broadcast_with<F>(&mut self, operation: &Operation, send: &F) where
        F: Fn(&UnboundedSender<Operation>, Operation) -> bool,

        requires
            forall|sender: &UnboundedSender<Operation>, copy: Operation| #[trigger]
                send.requires((sender, copy)),
        ensures
            exists|closed: Seq<bool>|
                handed_out(*send, old(self)@, operation@, closed) && final(self)@
                    == #[trigger] swept(old(self)@, closed, 0),
    {
        let ghost senders = self@;
        let ghost mut closed: Seq<bool> = Seq::new(senders.len(), |j: int| false);
        let mut i: usize = self.0.len();
        while i > 0
            invariant
                senders == old(self)@,
                i <= senders.len(),
                closed.len() == senders.len(),
                self@ == swept(senders, closed, i as int),
                forall|sender: &UnboundedSender<Operation>, copy: Operation| #[trigger]
                    send.requires((sender, copy)),
                forall|j: int|
                    i <= j < senders.len() ==> handed(
                        *send,
                        #[trigger] senders[j],
                        operation@,
                        closed[j],
                    ),
            decreases i,
        {
            i -= 1;
            proof {
                lemma_swept(senders, closed, i + 1);
                assert(self@.take(i + 1)[i as int] == senders.take(i + 1)[i as int]);
            }
            let copy = copy_operation(operation);
            let ghost handed_copy = copy;
            let sent = send(&self.0[i], copy);
            proof {
                let before = closed;
                assert(send.ensures((&senders[i as int], handed_copy), sent));
                closed = closed.update(i as int, !sent);
                assert(handed(*send, senders[i as int], operation@, closed[i as int]));
                lemma_swept_agrees(senders, before, closed, i + 1);
            }
            if !sent {
                let _ = self.0.swap_remove(i);
            }
        }
        assert(handed_out(*send, old(self)@, operation@, closed));
    }

    /// Tells an operation: sends it to everyone, and drops those who are gone.
    pub fn broadcast_op(&mut self, operation: Operation)
        ensures
            told_one(old(self)@, operation@, final(self)@),
    {
        let send = |sender: &UnboundedSender<Operation>, copy: Operation| -> (sent: bool)
            ensures
                exists|result: Result<(), SendError<Operation>>|
                    (result is Ok) == sent && #[trigger] call_ensures(
                        UnboundedSender::<Operation>::unbounded_send,
                        (sender, copy),
                        result,
                    ),
            {
                let ghost message = copy;
                let result = sender.unbounded_send(copy);
                assert(call_ensures(
                    UnboundedSender::<Operation>::unbounded_send,
                    (sender, message),
                    result,
                ));
                result.is_ok()
            };
        let ghost senders = self@;
        self.broadcast_with(&operation, &send);
        proof {
            let closed = choose|closed: Seq<bool>|
                handed_out(send, senders, operation@, closed) && self@ == #[trigger] swept(
                    senders,
                    closed,
                    0,
                );
            assert forall|i: int| 0 <= i < senders.len() implies sent_to(
                #[trigger] senders[i],
                operation@,
                closed[i],
            ) by {
                assert(handed(send, senders[i], operation@, closed[i]));
                let (copy, sent) = choose|copy: Operation, sent: bool|
                    copy@ == operation@ && sent != closed[i] && #[trigger] send.ensures(
                        (&senders[i], copy),
                        sent,
                    );
                let result = choose|result: Result<(), SendError<Operation>>|
                    (result is Ok) == sent && #[trigger] call_ensures(
                        UnboundedSender::<Operation>::unbounded_send,
                        (&senders[i], copy),
                        result,
                    );
                assert(call_ensures(
                    UnboundedSender::<Operation>::unbounded_send,
                    (&senders[i], copy),
                    result,
                ));
            }
            assert(sent_to_each(senders, operation@, closed));
        }
    }

    /// Adds one more to tell: the channel that is handed out is the one whose other
    /// end is kept.
    pub fn updates(&mut self) -> (updates: UnboundedReceiver<Operation>)
        ensures
            exists|tx: UnboundedSender<Operation>| #[trigger]
                are_ends(tx, updates) && final(self)@ == old(self)@.push(tx),
    {
        let (tx, rx) = mpsc::unbounded();
        assert(are_ends(tx, rx));
        self.0.push(tx);
        rx
    }
}

/// What replicas tell each other through.
pub trait NetworkProvider {
    /// What was told so far, in order.
    spec fn log(&self) -> Seq<EnvelopeModel>;

    /// How often it failed so far to tell operations.
    spec fn failures(&self) -> nat;

    /// Who asked so far for the operations that are told, in order.
    spec fn subscribers(&self) -> Seq<UnboundedSender<Operation>>;

    /// Tells operations.
    fn broadcast(&mut self, envelopes: Vec<OperationEnvelope>) -> (result: Result<(), Error>)
        ensures
            match result {
                Ok(_) => final(self).log() == old(self).log() + envelope_models(envelopes@)
                    && final(self).failures() == old(self).failures(),
                Err(_) => final(self).failures() == old(self).failures() + 1,
            },
            final(self).subscribers() == old(self).subscribers(),
    ;

    /// The operations that were told so far, in order.
    fn fetch(&self) -> (result: Result<Vec<Operation>, Error>)
        ensures
            result matches Ok(operations) ==> operation_models(operations@) == operations_in(
                self.log(),
            ),
    ;

    /// The operations that are told from now on.
    fn updates(&mut self) -> (updates: UnboundedReceiver<Operation>)
        ensures
            final(self).log() == old(self).log(),
            final(self).failures() == old(self).failures(),
            exists|tx: UnboundedSender<Operation>| #[trigger]
                are_ends(tx, updates) && final(self).subscribers() == old(
                    self,
                ).subscribers().push(tx),
    ;
}

/// What is told, once it is told, comes last of what can be fetched; and nothing
/// that was told before is lost.
pub proof fn law_fetch_after_broadcast(log: Seq<EnvelopeModel>, told: Seq<EnvelopeModel>)
    ensures
        operations_in(log + told) == operations_in(log) + operations_in(told),
{
    assert(operations_in(log + told) =~= operations_in(log) + operations_in(told));
}

/// What a client is told without asking.
#[derive(Debug)]
pub enum RpcUpdate {
    Operation(Operation),
}

/// What a client asks for.
#[derive(Debug)]
pub enum RpcRequest {
    Broadcast(Vec<OperationEnvelope>),
    Fetch,
}

/// What a client is answered.
#[derive(Debug)]
pub enum RpcResponse {
    Broadcasted,
    Fetch(Vec<Operation>),
}

/// Serves a provider to a client.
pub struct NetworkProviderService<P: NetworkProvider> {
    pub network_provider: P,
    pub updates: UnboundedReceiver<Operation>,
}

impl<P: NetworkProvider> NetworkProviderService<P> {
    pub fn new(network_provider: P) -> (service: Self)
        ensures
            service.network_provider.log() == network_provider.log(),
            service.network_provider.failures() == network_provider.failures(),
            exists|tx: UnboundedSender<Operation>| #[trigger]
                are_ends(tx, service.updates) && service.network_provider.subscribers()
                    == network_provider.subscribers().push(tx),
    {
        let mut network_provider = network_provider;
        let ghost before = network_provider.subscribers();
        let updates = network_provider.updates();
        let service = NetworkProviderService { network_provider, updates };
        proof {
            let tx = choose|tx: UnboundedSender<Operation>| #[trigger]
                are_ends(tx, updates) && service.network_provider.subscribers() == before.push(tx);
            assert(are_ends(tx, service.updates));
        }
        service
    }

    /// What a client is told of an operation.
    pub fn outgoing_op(update: Option<Operation>) -> (outgoing: Option<RpcUpdate>)
        ensures
            outgoing == (match update {
                Some(operation) => Some(RpcUpdate::Operation(operation)),
                None => None,
            }),
    {
        match update {
            Some(operation) => Some(RpcUpdate::Operation(operation)),
            None => None,
        }
    }

    /// Does what a client asks for, and answers. A request to tell nothing is not
    /// answered. Where the provider fails, its error stands in place of an answer.
    pub fn request(&mut self, request: RpcRequest) -> (response: Option<
        Result<RpcResponse, Error>,
    >)
        ensures
            match request {
                RpcRequest::Broadcast(envelopes) => if envelopes@.len() == 0 {
                    response is None && *final(self) == *old(self)
                } else {
                    match response {
                        Some(Ok(answer)) => {
                            &&& answer is Broadcasted
                            &&& final(self).network_provider.log()
                                == old(self).network_provider.log() + envelope_models(envelopes@)
                            &&& final(self).network_provider.failures()
                                == old(self).network_provider.failures()
                        },
                        Some(Err(_)) => final(self).network_provider.failures()
                            == old(self).network_provider.failures() + 1,
                        None => false,
                    }
                },
                RpcRequest::Fetch => {
                    &&& *final(self) == *old(self)
                    &&& exists|fetched: Result<Vec<Operation>, Error>|
                        {
                            &&& #[trigger] call_ensures(
                                P::fetch,
                                (&old(self).network_provider,),
                                fetched,
                            )
                            &&& response == Some(
                                match fetched {
                                    Ok(operations) => Ok::<RpcResponse, Error>(
                                        RpcResponse::Fetch(operations),
                                    ),
                                    Err(error) => Err(error),
                                },
                            )
                        }
                    &&& response matches Some(Ok(RpcResponse::Fetch(operations)))
                        ==> operation_models(operations@) == operations_in(
                        old(self).network_provider.log(),
                    )
                },
            },
            final(self).updates == old(self).updates,
            final(self).network_provider.subscribers()
                == old(self).network_provider.subscribers(),
    {
        match request {
            RpcRequest::Broadcast(envelopes) => {
                if envelopes.len() == 0 {
                    None
                } else {
                    match self.network_provider.broadcast(envelopes) {
                        Ok(_) => Some(Ok(RpcResponse::Broadcasted)),
                        Err(error) => Some(Err(error)),
                    }
                }
            },
            RpcRequest::Fetch => {
                let fetched = self.network_provider.fetch();
                assert(call_ensures(P::fetch, (&old(self).network_provider,), fetched));
                match fetched {
                    Ok(operations) => Some(Ok(RpcResponse::Fetch(operations))),
                    Err(error) => Some(Err(error)),
                }
            },
        }
    }
}

/// Reaches a provider through a connection.
pub struct RemoteNetworkProvider {
    notify: NetworkNotify,
}

impl RemoteNetworkProvider {
    /// Whom this provider tells operations.
    pub closed spec fn told(&self) -> Seq<UnboundedSender<Operation>> {
        self.notify@
    }

    pub fn new() -> (provider: RemoteNetworkProvider)
        ensures
            provider.told() == Seq::<UnboundedSender<Operation>>::empty(),
    {
        RemoteNetworkProvider { notify: NetworkNotify::new() }
    }

    /// Passes on what the connection tells.
    pub fn update(&mut self, update: RpcUpdate)
        ensures
            match update {
                RpcUpdate::Operation(operation) => told_one(
                    old(self).told(),
                    operation@,
                    final(self).told(),
                ),
            },
    {
        match update {
            RpcUpdate::Operation(operation) => {
                self.notify.broadcast_op(operation);
            },
        }
    }

    /// The operations that are told from now on.
    pub fn updates(&mut self) -> (updates: UnboundedReceiver<Operation>)
        ensures
            exists|tx: UnboundedSender<Operation>| #[trigger]
                are_ends(tx, updates) && final(self).told() == old(self).told().push(tx),
    {
        self.notify.updates()
    }

    /// What is asked for to tell operations.
    pub fn broadcast(envelopes: Vec<OperationEnvelope>) -> (request: RpcRequest)
        ensures
            request == RpcRequest::Broadcast(envelopes),
    {
        RpcRequest::Broadcast(envelopes)
    }

    /// What comes of it that operations were told.
    pub fn broadcasted(response: Result<RpcResponse, RpcError>) -> (result: Result<(), Error>)
        requires
            !(response matches Ok(RpcResponse::Fetch(_))),
        ensures
            result == (match response {
                Ok(_) => Ok::<(), Error>(()),
                Err(error) => Err(Error::Rpc(error)),
            }),
    {
        match response {
            Ok(_) => Ok(()),
            Err(error) => Err(Error::from(error)),
        }
    }

    /// What comes of it that operations were fetched.
    pub fn fetched(response: Result<RpcResponse, RpcError>) -> (result: Result<
        Vec<Operation>,
        Error,
    >)
        requires
            !(response matches Ok(RpcResponse::Broadcasted)),
        ensures
            match response {
                Ok(RpcResponse::Fetch(operations)) => result == Ok::<Vec<Operation>, Error>(
                    operations,
                ),
                Ok(RpcResponse::Broadcasted) => false,
                Err(error) => result == Err::<Vec<Operation>, Error>(Error::Rpc(error)),
            },
    {
        match response {
            Ok(RpcResponse::Fetch(operations)) => Ok(operations),
            Ok(RpcResponse::Broadcasted) => Ok(Vec::new()),
            Err(error) => Err(Error::from(error)),
        }
    }
}

/// Whether an operation was handed to a sender, and arrived.
pub open spec fn reached(sender: UnboundedSender<Operation>, operation: Seq<u8>) -> bool {
    exists|copy: Operation, result: Result<(), SendError<Operation>>|
        copy@ == operation && result is Ok && #[trigger] call_ensures(
            UnboundedSender::<Operation>::unbounded_send,
            (&sender, copy),
            result,
        )
}

/// Each operation that is told is handed to everybody who is there: who is still there
/// after it got it.
pub proof fn law_who_stays_was_told(
    before: Seq<UnboundedSender<Operation>>,
    operations: Seq<Seq<u8>>,
    after: Seq<UnboundedSender<Operation>>,
    sender: UnboundedSender<Operation>,
    index: int,
)
    requires
        told_all(before, operations, after),
        after.contains(sender),
        0 <= index < operations.len(),
    ensures
        reached(sender, operations[index]),
{
    let rounds = choose|rounds: Seq<Seq<UnboundedSender<Operation>>>| #[trigger]
        told_in_rounds(rounds, operations) && rounds.first() == before && rounds.last() == after;
    lemma_who_stays_was_told(rounds, operations, operations.len() as int, sender, index);
}

proof fn lemma_who_stays_was_told(
    rounds: Seq<Seq<UnboundedSender<Operation>>>,
    operations: Seq<Seq<u8>>,
    count: int,
    sender: UnboundedSender<Operation>,
    index: int,
)
    requires
        told_in_rounds(rounds, operations),
        0 <= index < count <= operations.len(),
        rounds[count].contains(sender),
    ensures
        reached(sender, operations[index]),
    decreases count,
{
    let between = rounds[count - 1];
    let operation = operations[count - 1];
    assert(told_one(rounds[count - 1], operations[count - 1], rounds[count - 1 + 1]));
    let closed = choose|closed: Seq<bool>|
        sent_to_each(between, operation, closed) && rounds[count] == #[trigger] swept(
            between,
            closed,
            0,
        );
    law_open_senders_stay(between, closed, sender);
    let i = choose|i: int|
        0 <= i < between.len() && !closed[i] && #[trigger] between[i] == sender;
    if index == count - 1 {
        assert(sent_to(between[i], operation, closed[i]));
        let (copy, result) = choose|copy: Operation, result: Result<(), SendError<Operation>>|
            copy@ == operation && (result is Err) == closed[i] && #[trigger] call_ensures(
                UnboundedSender::<Operation>::unbounded_send,
                (&between[i], copy),
                result,
            );
        assert(reached(sender, operation));
    } else {
        assert(between.contains(between[i]));
        lemma_who_stays_was_told(rounds, operations, count - 1, sender, index);
    }
}

/// Just the operations that were told can be fetched, in the order in which they were.
pub proof fn law_told_can_be_fetched(log: Seq<EnvelopeModel>, index: int)
    requires
        0 <= index < log.len(),
    ensures
        operations_in(log).len() == log.len(),
        operations_in(log)[index] == log[index].operation,
{
}

/// Operations and envelopes as mathematical values say all that these do, and those of a
/// list keep their places.
pub proof fn law_operations_as_values(
    operations: Seq<Operation>,
    envelopes: Seq<OperationEnvelope>,
    index: int,
)
    ensures
        operation_models(operations).len() == operations.len(),
        0 <= index < operations.len() ==> operation_models(operations)[index]
            == operations[index].payload@,
        envelope_models(envelopes).len() == envelopes.len(),
        0 <= index < envelopes.len() ==> envelope_models(envelopes)[index].epoch_head
            == envelopes[index].epoch_head && envelope_models(envelopes)[index].operation
            == envelopes[index].operation.payload@,
{
}

/// One operation that is told is handed to everybody who is there: who is still there
/// after it got it, and who is not was found to be closed.
pub proof fn law_one_operation_is_told(
    before: Seq<UnboundedSender<Operation>>,
    operation: Seq<u8>,
    after: Seq<UnboundedSender<Operation>>,
    index: int,
)
    requires
        told_one(before, operation, after),
        0 <= index < before.len(),
    ensures
        after.contains(before[index]) ==> reached(before[index], operation),
        !after.contains(before[index]) ==> exists|
            copy: Operation,
            result: Result<(), SendError<Operation>>,
        |
            copy@ == operation && result is Err && #[trigger] call_ensures(
                UnboundedSender::<Operation>::unbounded_send,
                (&before[index], copy),
                result,
            ),
{
    let sender = before[index];
    let closed = choose|closed: Seq<bool>|
        sent_to_each(before, operation, closed) && after == #[trigger] swept(before, closed, 0);
    law_open_senders_stay(before, closed, sender);
    if after.contains(sender) {
        let i = choose|i: int|
            0 <= i < before.len() && !closed[i] && #[trigger] before[i] == sender;
        assert(sent_to(before[i], operation, closed[i]));
    } else {
        assert(sent_to(before[index], operation, closed[index]));
    }
}

/// A way of sending that is handed an operation for each of some senders is handed just
/// that operation for each, and a sender is closed just where it says that it did not
/// send.
pub proof fn law_each_sender_is_handed_the_operation<F>(
    send: F,
    senders: Seq<UnboundedSender<Operation>>,
    operation: Seq<u8>,
    closed: Seq<bool>,
    index: int,
) where F: Fn(&UnboundedSender<Operation>, Operation) -> bool
    requires
        handed_out(send, senders, operation, closed),
        0 <= index < senders.len(),
    ensures
        closed.len() == senders.len(),
        exists|copy: Operation, sent: bool|
            copy.payload@ == operation && sent == !closed[index] && #[trigger] send.ensures(
                (&senders[index], copy),
                sent,
            ),
{
    assert(handed(send, senders[index], operation, closed[index]));
    let (copy, sent) = choose|copy: Operation, sent: bool|
        copy@ == operation && sent != closed[index] && #[trigger] send.ensures(
            (&senders[index], copy),
            sent,
        );
    assert(copy.payload@ == operation && sent == !closed[index]);
}

} // verus!
