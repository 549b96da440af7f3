//! The acceptor of single-decree Paxos.
//!
//! The highest ballot an acceptor has accepted in never decreases; it promises to
//! join only ballots above it, accepts only ballots at least as high, and replaces
//! what it accepted only by the proposal it accepts.
use crate::paxos::{Accept, Accepted, Ballot, MaxAcceptedProposal, Promise, Proposal};
use vstd::prelude::*;

verus! {

pub struct Acceptor {
    /// The highest ballot this acceptor has accepted in.
    pub max_ballot: Ballot,
    max_accepted: Option<MaxAcceptedProposal>,
}

impl Acceptor {
    /// The highest ballot this acceptor has accepted in.
    pub closed spec fn max_ballot_spec(&self) -> Ballot {
        self.max_ballot
    }

    /// The proposal this acceptor accepted last.
    pub closed spec fn max_accepted_spec(&self) -> Option<MaxAcceptedProposal> {
        self.max_accepted
    }

    /// `ballot` is higher than every ballot this acceptor has seen.
    fn is_safe_to_join_ballot(&self, ballot: Ballot) -> (r: bool)
        ensures
            r == (self.max_ballot_spec() < ballot),
    {
        self.max_ballot < ballot
    }

    /// An acceptor that has seen no ballot.
    pub fn new() -> (r: Self)
        ensures
            r.max_ballot_spec() == 0,
            r.max_accepted_spec() is None,
    {
        Acceptor { max_ballot: 0, max_accepted: None }
    }

    /// Phase 1b: promises to join the ballot of `p` if it is higher than every
    /// ballot seen, reporting what was accepted; refuses otherwise. The answer
    /// changes nothing in the acceptor.
    pub fn handle_proposal(&self, p: Proposal) -> (r: Option<Promise>)
        ensures
            r == (if self.max_ballot_spec() < p.ballot {
                Some(Promise { max_accepted: self.max_accepted_spec() })
            } else {
                None
            }),
    {
        if self.is_safe_to_join_ballot(p.ballot) {
            Some(Promise { max_accepted: self.max_accepted })
        } else {
            None
        }
    }

    /// Phase 2b: accepts the value of `a` if its ballot is at least the highest
    /// ballot seen; refuses otherwise, unchanged.
    pub fn handle_accept(&mut self, a: Accept) -> (r: Option<Accepted>)
        ensures
            a.ballot >= old(self).max_ballot_spec() ==> {
                &&& r == Some(Accepted { ballot: a.ballot, value: a.value })
                &&& final(self).max_ballot_spec() == a.ballot
                &&& final(self).max_accepted_spec() == Some(MaxAcceptedProposal(a.ballot, a.value))
            },
            a.ballot < old(self).max_ballot_spec() ==> r is None && *final(self) == *old(self),
            final(self).max_ballot_spec() >= old(self).max_ballot_spec(),
    {
        if a.ballot >= self.max_ballot {
            self.max_ballot = a.ballot;
            self.max_accepted = Some(MaxAcceptedProposal(a.ballot, a.value));
            Some(Accepted { ballot: a.ballot, value: a.value })
        } else {
            None
        }
    }
}

impl Default for Acceptor {
    fn default() -> (r: Self)
        ensures
            r.max_ballot_spec() == 0,
            r.max_accepted_spec() is None,
    {
        Self::new()
    }
}

} // verus!
