//! Single-decree Paxos between processes that talk through a [`Channel`].
//!
//! A leader process has a unique identifier, and so does a ballot: its ballot
//! number. Both are totally ordered. Ballot numbers can be taken as
//! lexicographically ordered pairs of an integer and the leader's identifier, so
//! that the leader of a ballot is known from its number.
pub mod acceptor;
pub mod channel;
pub mod messages;
pub mod proposer;

pub use acceptor::Acceptor;
pub use channel::{Channel, SharedMemoryChannel};
pub use messages::{Accept, Accepted, MaxAcceptedProposal, Promise, Proposal};
pub use proposer::Proposer;

use vstd::prelude::*;

verus! {

/// A ballot number.
pub type Ballot = u32;

/// The value that a proposer proposes: a command.
pub type Value = u32;

/// What processes send each other.
pub enum PaxosMessage {
    Proposal(Proposal),
    ProposalResponse(Promise),
    Accept(Accept),
    Accepted(Accepted),
}

/// A process that takes part in the Paxos algorithm; the main entry to it.
pub struct Node<T: Channel> {
    id: u32,
    channel: T,
    state: NodeState,
}

/// The values a node has seen in the current round.
pub struct NodeState {
    round: Vec<Value>,
}

impl<T: Channel> Node<T> {
    /// A node with identifier `id` that talks through `channel`, before any round.
    pub fn new(id: u32, channel: T) -> (r: Self)
        ensures
            r.id_spec() == id,
            r.channel_spec() == channel,
            r.round_spec() == Seq::<Value>::empty(),
    {
        Self { id, channel, state: NodeState { round: Vec::new() } }
    }

    /// The node's identifier.
    pub closed spec fn id_spec(&self) -> u32 {
        self.id
    }

    /// The channel the node talks through.
    pub closed spec fn channel_spec(&self) -> T {
        self.channel
    }

    /// The values of the current round.
    pub closed spec fn round_spec(&self) -> Seq<Value> {
        self.state.round@
    }

    /// The node's identifier.
    pub fn id(&self) -> (r: u32)
        ensures
            r == self.id_spec(),
    {
        self.id
    }

    /// The channel the node talks through.
    pub fn channel(&self) -> (r: &T)
        ensures
            *r == self.channel_spec(),
    {
        &self.channel
    }
}

} // verus!
