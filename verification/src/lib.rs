//! State machine replication built on a Multi-Paxos consensus core.
//!
//! The library holds the protocol logic: the acceptor, proposer and learner of a
//! single Paxos instance, the Multi-Paxos node that runs one instance per log slot,
//! the agreement of an instance across a cluster, the persistence layer for
//! acceptor state and the command log, the framing of network messages, the
//! parsing of the command-line configuration, and a single-decree Paxos core.
pub mod applier;
pub mod channel;
pub mod commands;
pub mod config;
pub mod errors;
pub mod json;
pub mod multipaxos;
pub mod paxos;
pub mod storage;
pub mod text;

pub use commands::{CommandTrait, SerializableCommand};
pub use config::{AlgorithmConfig, CliArgsError, SmrConfig};
pub use multipaxos::PaxosInstance;

use multipaxos::{Message, ProposalTicket};
use vstd::prelude::*;

verus! {

/// The result type used across the library.
pub type Result<T> = core::result::Result<T, anyhow::Error>;

/// A deterministic state machine that the library replicates: every replica
/// applies the same commands in the same order.
pub trait StateMachine: Sized + Sync + Send {
    type Command: CommandTrait + SerializableCommand;
    type Output: Clone + Send;

    /// `after` and `result` are what applying `command` to this state machine
    /// gave. A state machine verified here may say what that is; for one written
    /// in plain Rust the relation holds of every outcome, and says nothing but
    /// that it comes from a call of `apply`.
    closed spec fn applied(&self, command: Self::Command, after: Self, result: Result<Self::Output>) -> bool {
        true
    }

    fn apply(&mut self, command: Self::Command) -> (r: Result<Self::Output>)
        ensures
            old(self).applied(command, *final(self), r),
    ;

    /// Prepares the state machine before the first command; the provided
    /// preparation does nothing and succeeds.
    fn init(&mut self) -> (r: Result<()>)
        default_ensures
            r is Ok,
    {
        Ok(())
    }
}

/// Receives the messages sent to this node and sends messages to the other nodes.
pub trait Channel<C> {
    fn receive(&mut self) -> Result<Option<C>>;

    fn send(&mut self, message: C) -> Result<()>;
}

/// What a proposal yields: the messages to send, and the ticket under which its
/// outcome will be reported.
pub type ProposalResult<S> = (Vec<Message<<S as StateMachine>::Command>>, ProposalTicket);

/// A committed command, with the ticket of the local proposal it answers, if any.
pub type CommitResult<S> = (<S as StateMachine>::Command, Option<ProposalTicket>);

/// A replication algorithm: it takes proposals and messages, and reports the
/// committed commands in log order.
pub trait StateMachineReplicationAlgorithm<S: StateMachine> {
    type SMRMessage;

    /// The algorithm's state is consistent.
    spec fn consistent(&self) -> bool;

    /// The algorithm can take a new proposal.
    spec fn ready_to_propose(&self) -> bool;

    /// The algorithm can take this message.
    spec fn ready_for(&self, message: Self::SMRMessage) -> bool;

    fn propose(&mut self, command: S::Command) -> Result<ProposalResult<S>>
        requires
            old(self).ready_to_propose(),
    ;

    fn handle_message(&mut self, message: Self::SMRMessage) -> Result<Vec<Message<S::Command>>>
        requires
            old(self).ready_for(message),
    ;

    fn get_commit_id(&mut self, id: u64) -> Option<CommitResult<S>>
        requires
            old(self).consistent(),
    ;
}

} // verus!
