//! The proposer of single-decree Paxos.
use crate::paxos::{Ballot, MaxAcceptedProposal, Promise, Proposal, Value};
use vstd::prelude::*;

verus! {

/// What a proposer has heard in its current ballot.
pub struct ProposerBallotState {
    /// The number of acceptors that promised to take part in this ballot.
    promises: u32,
    /// The proposals the acceptors reported, each once.
    max_accepted_proposals: Vec<MaxAcceptedProposal>,
    /// The number of acceptors that accepted in this ballot.
    accepts: u32,
}

/// The distance between two rounds of one proposer. A ballot number is the pair of
/// a round and the proposer's identifier, `round * ROUND_STRIDE + identifier`; a
/// 32-bit ballot holds such a pair for identifiers below `ROUND_STRIDE`, so only
/// such a proposer moves to a new round.
pub const ROUND_STRIDE: u32 = 65536;

/// The proposer whose ballot this is.
pub open spec fn ballot_proposer(ballot: Ballot) -> u32 {
    (ballot % ROUND_STRIDE) as u32
}

/// The round of a ballot.
pub open spec fn ballot_round(ballot: Ballot) -> int {
    (ballot as int) / (ROUND_STRIDE as int)
}

/// A ballot names its proposer: ballots of proposers with distinct identifiers
/// never coincide, and within one proposer a later round is a higher ballot.
pub proof fn lemma_ballot_names_proposer(b1: Ballot, b2: Ballot)
    ensures
        b1 == b2 ==> ballot_proposer(b1) == ballot_proposer(b2),
        ballot_proposer(b1) == ballot_proposer(b2) ==> (b1 < b2 <==> ballot_round(b1) < ballot_round(b2)),
{
}

pub struct Proposer {
    ballot: Ballot,
    value: Value,
    proposer_id: u32,
    ballot_state: ProposerBallotState,
}

impl Proposer {
    /// The proposer's current ballot.
    pub closed spec fn ballot_spec(&self) -> Ballot {
        self.ballot
    }

    /// The value it proposes.
    pub closed spec fn value_spec(&self) -> Value {
        self.value
    }

    /// Its identifier.
    pub closed spec fn proposer_id_spec(&self) -> u32 {
        self.proposer_id
    }

    /// The number of promises heard in the current ballot.
    pub closed spec fn promises_spec(&self) -> u32 {
        self.ballot_state.promises
    }

    /// The number of acceptances heard in the current ballot.
    pub closed spec fn accepts_spec(&self) -> u32 {
        self.ballot_state.accepts
    }

    /// The proposals reported in the promises of the current ballot.
    pub closed spec fn reported_spec(&self) -> Set<MaxAcceptedProposal> {
        self.ballot_state.max_accepted_proposals@.to_set()
    }

    /// What every proposer keeps: each reported proposal is held once, and its
    /// ballot is one of its own.
    pub closed spec fn well_formed(&self) -> bool {
        &&& self.ballot_state.max_accepted_proposals@.no_duplicates()
        &&& self.proposer_id < ROUND_STRIDE ==> ballot_proposer(self.ballot) == self.proposer_id
    }

    /// Proposers with distinct identifiers never hold the same ballot.
    pub proof fn lemma_ballots_distinct(p: &Proposer, q: &Proposer)
        requires
            p.well_formed(),
            q.well_formed(),
            p.proposer_id_spec() != q.proposer_id_spec(),
            p.proposer_id_spec() < ROUND_STRIDE,
            q.proposer_id_spec() < ROUND_STRIDE,
        ensures
            p.ballot_spec() != q.ballot_spec(),
    {
    }

    /// A proposer of `value`, whose first ballot is round zero with its identifier.
    pub fn new(proposer_id: u32, value: u32) -> (r: Self)
        ensures
            r.well_formed(),
            r.ballot_spec() == proposer_id,
            r.value_spec() == value,
            r.proposer_id_spec() == proposer_id,
            r.promises_spec() == 0,
            r.accepts_spec() == 0,
            r.reported_spec() == Set::<MaxAcceptedProposal>::empty(),
    {
        let r = Self {
            proposer_id,
            value,
            ballot: proposer_id,
            ballot_state: ProposerBallotState { promises: 0, max_accepted_proposals: Vec::new(), accepts: 0 },
        };
        assert(r.reported_spec() =~= Set::<MaxAcceptedProposal>::empty());
        r
    }

    /// Phase 1a: moves to the next round of this proposer, its current ballot
    /// plus one round, and proposes that ballot.
    pub fn new_proposal(&mut self) -> (r: Proposal)
        requires
            old(self).proposer_id_spec() < ROUND_STRIDE,
            old(self).ballot_spec() + ROUND_STRIDE <= u32::MAX,
        ensures
            final(self).ballot_spec() == old(self).ballot_spec() + ROUND_STRIDE,
            ballot_proposer(final(self).ballot_spec()) == ballot_proposer(old(self).ballot_spec()),
            ballot_round(final(self).ballot_spec()) == ballot_round(old(self).ballot_spec()) + 1,
            r == (Proposal { ballot: final(self).ballot_spec() }),
            old(self).well_formed() ==> ballot_proposer(r.ballot) == old(self).proposer_id_spec(),
            final(self).value_spec() == old(self).value_spec(),
            final(self).proposer_id_spec() == old(self).proposer_id_spec(),
            final(self).promises_spec() == old(self).promises_spec(),
            final(self).accepts_spec() == old(self).accepts_spec(),
            final(self).reported_spec() == old(self).reported_spec(),
            final(self).well_formed() == old(self).well_formed(),
    {
        self.ballot = self.ballot + ROUND_STRIDE;
        Proposal { ballot: self.ballot }
    }

    /// Phase 1b at the proposer: counts a promise and records the proposal it
    /// reports.
    pub fn handle_proposal_response(&mut self, response: Promise)
        requires
            old(self).well_formed(),
            response.max_accepted is Some,
            old(self).promises_spec() < u32::MAX,
        ensures
            final(self).well_formed(),
            final(self).promises_spec() == old(self).promises_spec() + 1,
            final(self).reported_spec() == old(self).reported_spec().insert(response.max_accepted.unwrap()),
            final(self).ballot_spec() == old(self).ballot_spec(),
            final(self).value_spec() == old(self).value_spec(),
            final(self).proposer_id_spec() == old(self).proposer_id_spec(),
            final(self).accepts_spec() == old(self).accepts_spec(),
    {
        let p = response.max_accepted.unwrap();
        let ghost before = self.ballot_state.max_accepted_proposals@;
        let mut found = false;
        let mut i: usize = 0;
        while i < self.ballot_state.max_accepted_proposals.len()
            invariant
                i <= before.len(),
                self.ballot_state.max_accepted_proposals@ == before,
                found == (exists|j: int| 0 <= j < i && before[j] == p),
            decreases before.len() - i,
        {
            if self.ballot_state.max_accepted_proposals[i] == p {
                found = true;
            }
            i = i + 1;
        }
        if !found {
            self.ballot_state.max_accepted_proposals.push(p);
            proof {
                let after = before.push(p);
                assert(after.drop_last() =~= before);
                assert(after.drop_last().to_set().insert(after.last()) =~= after.to_set());
                assert(!before.contains(p));
            }
        } else {
            proof {
                let j = choose|j: int| 0 <= j < i && before[j] == p;
                assert(before.contains(p));
                assert(before.to_set().insert(p) =~= before.to_set());
            }
        }
        self.ballot_state.promises = self.ballot_state.promises + 1;
    }
}

} // verus!
