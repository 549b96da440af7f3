//! The messages of single-decree Paxos.
use crate::paxos::{Ballot, Value};
use vstd::prelude::*;

verus! {

/// The last proposal an acceptor accepted: its ballot and its value.
#[derive(Debug, Clone, Copy, PartialEq, Eq, Hash, PartialOrd, Ord, Structural)]
pub struct MaxAcceptedProposal(pub Ballot, pub Value);

/// Phase 1a: a proposer asks the acceptors to join a ballot.
#[derive(Debug, Clone, Copy, PartialEq, Eq, Structural)]
pub struct Proposal {
    pub ballot: Ballot,
}

/// Phase 1b: an acceptor joins, reporting what it accepted last.
#[derive(Debug, Clone, Copy, PartialEq, Eq, Structural)]
pub struct Promise {
    pub max_accepted: Option<MaxAcceptedProposal>,
}

/// Phase 2a: a proposer asks the acceptors to accept a value in a ballot.
#[derive(Debug, Clone, Copy, PartialEq, Eq, Structural)]
pub struct Accept {
    pub ballot: Ballot,
    pub value: Value,
}

/// Phase 2b: an acceptor accepted a value in a ballot.
#[derive(Debug, Clone, Copy, PartialEq, Eq, Structural)]
pub struct Accepted {
    pub ballot: Ballot,
    pub value: Value,
}

} // verus!
