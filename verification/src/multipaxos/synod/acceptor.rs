//! The acceptor of a Paxos instance.
//!
//! * A1: an acceptor only adopts strictly increasing ballot numbers on Prepare;
//! * A2: an acceptor accepts a command of ballot `b` only if `b` is at least the
//!   ballot it promised (Multi-Paxos: an Accept carries an implicit promise);
//! * what an acceptor accepted is never below the ballot it promised.
use crate::commands::CommandTrait;
use crate::multipaxos::synod::messages::{
    duplicate_max_accepted, Accept, AckAccept, MaxAcceptedProposal, MessageKind, NackAccept,
    NackPrepare, Prepare, Promise, SenderId,
};
use crate::multipaxos::Ballot;
use vstd::prelude::*;

verus! {

#[derive(Debug, Clone)]
pub struct Acceptor<C> {
    pub my_id: SenderId,
    /// The highest ballot this acceptor has promised or accepted.
    pub max_ballot: Ballot,
    /// The proposal this acceptor accepted last.
    pub max_accepted: Option<MaxAcceptedProposal<C>>,
}

/// The acceptor's state and answer after a Prepare.
pub open spec fn prepare_step<C>(a: Acceptor<C>, p: Prepare) -> (Acceptor<C>, MessageKind<C>) {
    if a.max_ballot < p.ballot {
        (
            Acceptor { my_id: a.my_id, max_ballot: p.ballot, max_accepted: a.max_accepted },
            MessageKind::PromiseMsg(
                Promise { sender: a.my_id, ballot: p.ballot, max_accepted: a.max_accepted },
            ),
        )
    } else {
        (a, MessageKind::NackPrepareMsg(NackPrepare { sender: a.my_id, max_ballot: a.max_ballot }))
    }
}

/// The acceptor's state and answer after an Accept.
pub open spec fn accept_step<C>(a: Acceptor<C>, m: Accept<C>) -> (Acceptor<C>, MessageKind<C>) {
    if m.ballot >= a.max_ballot {
        (
            Acceptor {
                my_id: a.my_id,
                max_ballot: m.ballot,
                max_accepted: Some(MaxAcceptedProposal { ballot: m.ballot, command: m.command }),
            },
            MessageKind::AckAcceptMsg(AckAccept { sender: a.my_id, ballot: m.ballot }),
        )
    } else {
        (a, MessageKind::NackAcceptMsg(NackAccept { sender: a.my_id, max_ballot: a.max_ballot }))
    }
}

impl<C> Acceptor<C> {
    /// What every acceptor keeps: what it accepted is not above the ballot it promised.
    pub open spec fn well_formed(&self) -> bool {
        self.max_accepted matches Some(p) ==> p.ballot <= self.max_ballot
    }
}

impl<C: CommandTrait> Acceptor<C> {
    pub fn new(my_id: SenderId) -> (r: Self)
        ensures
            r.my_id == my_id,
            r.max_ballot == 0,
            r.max_accepted is None,
            r.well_formed(),
    {
        Acceptor { max_ballot: 0, max_accepted: None, my_id }
    }

    /// Phase 1b: promise the ballot of `p` if it is higher than any ballot seen,
    /// reporting what was accepted so far; otherwise refuse.
    pub fn handle_prepare(&mut self, p: Prepare) -> (r: MessageKind<C>)
        ensures
            (*final(self), r) == prepare_step(*old(self), p),
    {
        let is_safe_to_join_ballot = self.max_ballot < p.ballot;
        if is_safe_to_join_ballot {
            self.max_ballot = p.ballot;
            MessageKind::PromiseMsg(
                Promise {
                    sender: self.my_id,
                    ballot: p.ballot,
                    max_accepted: duplicate_max_accepted(&self.max_accepted),
                },
            )
        } else {
            MessageKind::NackPrepareMsg(NackPrepare { sender: self.my_id, max_ballot: self.max_ballot })
        }
    }

    /// Phase 2b: accept the command of `a` if its ballot is not below the promised
    /// one; otherwise refuse.
    pub fn handle_accept(&mut self, a: Accept<C>) -> (r: MessageKind<C>)
        ensures
            (*final(self), r) == accept_step(*old(self), a),
    {
        if a.ballot >= self.max_ballot {
            self.max_ballot = a.ballot;
            self.max_accepted = Some(MaxAcceptedProposal { ballot: a.ballot, command: a.command });
            MessageKind::AckAcceptMsg(AckAccept { sender: self.my_id, ballot: a.ballot })
        } else {
            MessageKind::NackAcceptMsg(NackAccept { sender: self.my_id, max_ballot: self.max_ballot })
        }
    }
}

/// The acceptor never lowers its ballot, keeps its identity, and stays well formed,
/// whatever Prepare or Accept it handles.
pub proof fn lemma_acceptor_monotone<C>(a: Acceptor<C>, p: Prepare, m: Accept<C>)
    requires
        a.well_formed(),
    ensures
        prepare_step(a, p).0.max_ballot >= a.max_ballot,
        accept_step(a, m).0.max_ballot >= a.max_ballot,
        prepare_step(a, p).0.my_id == a.my_id,
        accept_step(a, m).0.my_id == a.my_id,
        prepare_step(a, p).0.well_formed(),
        accept_step(a, m).0.well_formed(),
{
}

/// A1: a promise is given exactly for ballots strictly above every ballot seen, and
/// once an acceptor promised ballot `b` it refuses every Prepare of ballot `b` or less.
pub proof fn lemma_promise_only_higher<C>(a: Acceptor<C>, p: Prepare, q: Prepare)
    ensures
        prepare_step(a, p).1 is PromiseMsg <==> p.ballot > a.max_ballot,
        prepare_step(a, p).1 is PromiseMsg && q.ballot <= p.ballot ==> prepare_step(
            prepare_step(a, p).0,
            q,
        ).1 is NackPrepareMsg,
{
}

/// A2: an acceptor accepts exactly the Accepts whose ballot is at least the one it
/// promised; after promising `b` it refuses every Accept below `b`, and a refused
/// Prepare or Accept leaves it unchanged.
pub proof fn lemma_accept_respects_promise<C>(a: Acceptor<C>, p: Prepare, m: Accept<C>)
    ensures
        accept_step(a, m).1 is AckAcceptMsg <==> m.ballot >= a.max_ballot,
        prepare_step(a, p).1 is PromiseMsg && m.ballot < p.ballot ==> accept_step(
            prepare_step(a, p).0,
            m,
        ).1 is NackAcceptMsg,
        prepare_step(a, p).1 is NackPrepareMsg ==> prepare_step(a, p).0 == a,
        accept_step(a, m).1 is NackAcceptMsg ==> accept_step(a, m).0 == a,
{
}

} // verus!
