//! The messages that nodes exchange in a Paxos instance.
use crate::commands::CommandTrait;
use crate::multipaxos::Ballot;
use vstd::prelude::*;

verus! {

/// The identifier of the node that sends a message.
pub type SenderId = u32;

/// The highest proposal an acceptor has accepted: its ballot and command.
#[derive(Debug, Clone, PartialEq, Eq, Hash, PartialOrd, Ord)]
pub struct MaxAcceptedProposal<C> {
    pub ballot: Ballot,
    pub command: C,
}

/// A message on the wire: its sender, the Paxos instance (log slot) it belongs to,
/// and its content.
#[derive(Clone, Debug)]
pub struct Message<T> {
    pub sender_id: SenderId,
    pub paxos_instance: u64,
    pub msg: MessageKind<T>,
}

/// The content of a message.
#[derive(Clone, Debug, PartialEq, Eq, Hash)]
pub enum MessageKind<T> {
    /// A proposal sent to the leader by a node that is not the leader.
    RequestCommandToLeader { cmd: T, forward_id: u64 },
    /// The leader's answer to a forwarded proposal: the instance it was given.
    ForwardAck { forward_id: u64, instance_id: u64 },
    /// Phase 1a.
    PrepareMsg(Prepare),
    /// Phase 1b.
    PromiseMsg(Promise<T>),
    /// Phase 2a.
    AcceptMsg(Accept<T>),
    /// Phase 2b.
    AckAcceptMsg(AckAccept),
    /// An acceptor refuses a Prepare.
    NackPrepareMsg(NackPrepare),
    /// An acceptor refuses an Accept.
    NackAcceptMsg(NackAccept),
    /// A command was chosen in a ballot.
    LearnMsg(Learn<T>),
    /// A learner reached a quorum for a command.
    LearnedCommand { cmd: T },
}

/// Phase 1a: a proposer asks the acceptors to join its ballot.
#[derive(Clone, Copy, Debug, PartialEq, Eq, Hash)]
pub struct Prepare {
    pub sender: SenderId,
    pub ballot: Ballot,
}

/// Phase 1b: an acceptor joins a ballot and reports what it accepted before.
#[derive(Clone, Debug, PartialEq, Eq, Hash)]
pub struct Promise<C> {
    pub sender: SenderId,
    pub ballot: Ballot,
    pub max_accepted: Option<MaxAcceptedProposal<C>>,
}

/// Phase 2a: a proposer asks the acceptors to accept a command in its ballot.
#[derive(Clone, Debug, PartialEq, Eq, Hash)]
pub struct Accept<C> {
    pub sender: SenderId,
    pub ballot: Ballot,
    pub command: C,
}

/// Phase 2b: an acceptor accepted the command of a ballot.
#[derive(Clone, Copy, Debug, PartialEq, Eq, Hash)]
pub struct AckAccept {
    pub sender: SenderId,
    pub ballot: Ballot,
}

/// An acceptor refuses a Prepare, reporting the ballot it has promised.
#[derive(Clone, Copy, Debug, PartialEq, Eq, Hash)]
pub struct NackPrepare {
    pub sender: SenderId,
    pub max_ballot: Ballot,
}

/// An acceptor refuses an Accept, reporting the ballot it has promised.
#[derive(Clone, Copy, Debug, PartialEq, Eq, Hash)]
pub struct NackAccept {
    pub sender: SenderId,
    pub max_ballot: Ballot,
}

/// A command was chosen in a ballot; learners count these messages.
#[derive(Clone, Debug, PartialEq, Eq, Hash)]
pub struct Learn<C> {
    pub sender: SenderId,
    pub ballot: Ballot,
    pub command: C,
}

impl<T> Message<T> {
    pub fn new(sender_id: SenderId, msg: MessageKind<T>, paxos_instance: u64) -> (r: Self)
        ensures
            r.sender_id == sender_id,
            r.msg == msg,
            r.paxos_instance == paxos_instance,
    {
        Message { sender_id, msg, paxos_instance }
    }

    pub fn sender_id(&self) -> (r: SenderId)
        ensures
            r == self.sender_id,
    {
        self.sender_id
    }

    pub fn instance_id(&self) -> (r: u64)
        ensures
            r == self.paxos_instance,
    {
        self.paxos_instance
    }

    pub fn kind(self) -> (r: MessageKind<T>)
        ensures
            r == self.msg,
    {
        self.msg
    }
}

impl<C: CommandTrait> MaxAcceptedProposal<C> {
    /// A copy of the proposal.
    pub fn duplicate(&self) -> (r: Self)
        ensures
            r == *self,
    {
        MaxAcceptedProposal { ballot: self.ballot, command: self.command.clone_command() }
    }
}

/// A copy of an optional accepted proposal.
pub fn duplicate_max_accepted<C: CommandTrait>(p: &Option<MaxAcceptedProposal<C>>) -> (r: Option<
    MaxAcceptedProposal<C>,
>)
    ensures
        r == *p,
{
    match p {
        Some(q) => Some(q.duplicate()),
        None => None,
    }
}

impl<C: CommandTrait> Learn<C> {
    /// A copy of the message.
    pub fn duplicate(&self) -> (r: Self)
        ensures
            r == *self,
    {
        Learn { sender: self.sender, ballot: self.ballot, command: self.command.clone_command() }
    }
}

impl<C: CommandTrait> MessageKind<C> {
    /// A copy of the message.
    pub fn duplicate(&self) -> (r: Self)
        ensures
            r == *self,
    {
        match self {
            MessageKind::RequestCommandToLeader { cmd, forward_id } => {
                MessageKind::RequestCommandToLeader { cmd: cmd.clone_command(), forward_id: *forward_id }
            },
            MessageKind::ForwardAck { forward_id, instance_id } => {
                MessageKind::ForwardAck { forward_id: *forward_id, instance_id: *instance_id }
            },
            MessageKind::PrepareMsg(p) => MessageKind::PrepareMsg(*p),
            MessageKind::PromiseMsg(p) => MessageKind::PromiseMsg(
                Promise {
                    sender: p.sender,
                    ballot: p.ballot,
                    max_accepted: duplicate_max_accepted(&p.max_accepted),
                },
            ),
            MessageKind::AcceptMsg(a) => MessageKind::AcceptMsg(
                Accept { sender: a.sender, ballot: a.ballot, command: a.command.clone_command() },
            ),
            MessageKind::AckAcceptMsg(a) => MessageKind::AckAcceptMsg(*a),
            MessageKind::NackPrepareMsg(n) => MessageKind::NackPrepareMsg(*n),
            MessageKind::NackAcceptMsg(n) => MessageKind::NackAcceptMsg(*n),
            MessageKind::LearnMsg(l) => MessageKind::LearnMsg(l.duplicate()),
            MessageKind::LearnedCommand { cmd } => MessageKind::LearnedCommand {
                cmd: cmd.clone_command(),
            },
        }
    }
}

impl<C> From<Prepare> for MessageKind<C> {
    fn from(proposal: Prepare) -> (r: Self) {
        MessageKind::PrepareMsg(proposal)
    }
}

impl<C> vstd::std_specs::convert::FromSpecImpl<Prepare> for MessageKind<C> {
    open spec fn obeys_from_spec() -> bool {
        true
    }

    open spec fn from_spec(v: Prepare) -> Self {
        MessageKind::PrepareMsg(v)
    }
}

impl<C> From<Promise<C>> for MessageKind<C> {
    fn from(promise: Promise<C>) -> (r: Self) {
        MessageKind::PromiseMsg(promise)
    }
}

impl<C> vstd::std_specs::convert::FromSpecImpl<Promise<C>> for MessageKind<C> {
    open spec fn obeys_from_spec() -> bool {
        true
    }

    open spec fn from_spec(v: Promise<C>) -> Self {
        MessageKind::PromiseMsg(v)
    }
}

impl<C> From<Accept<C>> for MessageKind<C> {
    fn from(accept: Accept<C>) -> (r: Self) {
        MessageKind::AcceptMsg(accept)
    }
}

impl<C> vstd::std_specs::convert::FromSpecImpl<Accept<C>> for MessageKind<C> {
    open spec fn obeys_from_spec() -> bool {
        true
    }

    open spec fn from_spec(v: Accept<C>) -> Self {
        MessageKind::AcceptMsg(v)
    }
}

impl<C> From<AckAccept> for MessageKind<C> {
    fn from(accepted: AckAccept) -> (r: Self) {
        MessageKind::AckAcceptMsg(accepted)
    }
}

impl<C> vstd::std_specs::convert::FromSpecImpl<AckAccept> for MessageKind<C> {
    open spec fn obeys_from_spec() -> bool {
        true
    }

    open spec fn from_spec(v: AckAccept) -> Self {
        MessageKind::AckAcceptMsg(v)
    }
}

impl<C> From<Learn<C>> for MessageKind<C> {
    fn from(learn: Learn<C>) -> (r: Self) {
        MessageKind::LearnMsg(learn)
    }
}

impl<C> vstd::std_specs::convert::FromSpecImpl<Learn<C>> for MessageKind<C> {
    open spec fn obeys_from_spec() -> bool {
        true
    }

    open spec fn from_spec(v: Learn<C>) -> Self {
        MessageKind::LearnMsg(v)
    }
}

impl<C> From<NackPrepare> for MessageKind<C> {
    fn from(nack: NackPrepare) -> (r: Self) {
        MessageKind::NackPrepareMsg(nack)
    }
}

impl<C> vstd::std_specs::convert::FromSpecImpl<NackPrepare> for MessageKind<C> {
    open spec fn obeys_from_spec() -> bool {
        true
    }

    open spec fn from_spec(v: NackPrepare) -> Self {
        MessageKind::NackPrepareMsg(v)
    }
}

impl<C> From<NackAccept> for MessageKind<C> {
    fn from(nack: NackAccept) -> (r: Self) {
        MessageKind::NackAcceptMsg(nack)
    }
}

impl<C> vstd::std_specs::convert::FromSpecImpl<NackAccept> for MessageKind<C> {
    open spec fn obeys_from_spec() -> bool {
        true
    }

    open spec fn from_spec(v: NackAccept) -> Self {
        MessageKind::NackAcceptMsg(v)
    }
}

} // verus!
