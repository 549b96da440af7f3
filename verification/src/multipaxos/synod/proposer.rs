//! The proposer of a Paxos instance.
//!
//! A proposer goes through four phases: `Initial`; `Proposal` after it sent a
//! Prepare for its ballot, while it collects promises; `Accepting` after it sent an
//! Accept, while it collects acknowledgements; `Learning` after a quorum accepted
//! and it sent a Learn. Each acceptor is counted once per phase, and messages of
//! another ballot are ignored. When a quorum promised, the proposer proposes the
//! command of the highest-ballot proposal that the promises reported, or its own
//! command when none was reported.
use crate::commands::CommandTrait;
use crate::multipaxos::synod::messages::{
    duplicate_max_accepted, Accept, AckAccept, Learn, MaxAcceptedProposal, MessageKind, Prepare,
    Promise, SenderId,
};
use crate::multipaxos::Ballot;
use vstd::prelude::*;

verus! {

/// The phase of a proposer, with what it collected in that phase.
pub enum ProposerPhase<C> {
    Initial,
    Proposal { promised_by: Seq<SenderId>, max_accepted: Option<MaxAcceptedProposal<C>>, value: C },
    Accepting { accepted_by: Seq<SenderId>, value: C },
    Learning,
}

/// What a proposer holds.
pub struct ProposerView<C> {
    pub phase: ProposerPhase<C>,
    pub ballot: Ballot,
    pub proposer_id: u32,
    pub quorum_size: u32,
    pub total_nodes: u32,
}

/// The higher of two reported proposals; the earlier one wins a tie.
pub open spec fn higher_proposal<C>(
    cur: Option<MaxAcceptedProposal<C>>,
    new: Option<MaxAcceptedProposal<C>>,
) -> Option<MaxAcceptedProposal<C>> {
    match new {
        None => cur,
        Some(n) => match cur {
            None => Some(n),
            Some(c) => if n.ballot > c.ballot {
                Some(n)
            } else {
                Some(c)
            },
        },
    }
}

/// The command a proposer proposes: that of the highest reported proposal, or its own.
pub open spec fn chosen_command<C>(best: Option<MaxAcceptedProposal<C>>, own: C) -> C {
    match best {
        Some(p) => p.command,
        None => own,
    }
}

/// Phase 1a: the next ballot of this proposer and its Prepare.
pub open spec fn new_prepare_step<C>(p: ProposerView<C>, value: C) -> (ProposerView<C>, MessageKind<
    C,
>) {
    let b = (p.ballot + p.total_nodes) as u32;
    (
        ProposerView {
            phase: ProposerPhase::Proposal {
                promised_by: Seq::empty(),
                max_accepted: None,
                value,
            },
            ballot: b,
            ..p
        },
        MessageKind::PrepareMsg(Prepare { sender: p.proposer_id, ballot: b }),
    )
}

/// Phase 2a directly in ballot `b`, skipping Phase 1.
pub open spec fn new_accept_step<C>(p: ProposerView<C>, b: Ballot, value: C) -> (ProposerView<C>, MessageKind<
    C,
>) {
    (
        ProposerView {
            phase: ProposerPhase::Accepting { accepted_by: Seq::empty(), value },
            ballot: b,
            ..p
        },
        MessageKind::AcceptMsg(Accept { sender: p.proposer_id, ballot: b, command: value }),
    )
}

/// The proposer's state and answer after a message.
pub open spec fn proposer_step<C>(p: ProposerView<C>, m: MessageKind<C>) -> (ProposerView<C>, Option<
    MessageKind<C>,
>) {
    match (p.phase, m) {
        (ProposerPhase::Initial, MessageKind::RequestCommandToLeader { cmd, .. }) => {
            let (q, msg) = new_prepare_step(p, cmd);
            (q, Some(msg))
        },
        (
            ProposerPhase::Proposal { promised_by, max_accepted, value },
            MessageKind::PromiseMsg(pr),
        ) => {
            if pr.ballot != p.ballot || promised_by.contains(pr.sender) {
                (p, None)
            } else {
                let promised = promised_by.push(pr.sender);
                let best = higher_proposal(max_accepted, pr.max_accepted);
                if promised.len() >= p.quorum_size {
                    let cmd = chosen_command(best, value);
                    (
                        ProposerView {
                            phase: ProposerPhase::Accepting { accepted_by: Seq::empty(), value: cmd },
                            ..p
                        },
                        Some(
                            MessageKind::AcceptMsg(
                                Accept { sender: p.proposer_id, ballot: p.ballot, command: cmd },
                            ),
                        ),
                    )
                } else {
                    (
                        ProposerView {
                            phase: ProposerPhase::Proposal {
                                promised_by: promised,
                                max_accepted: best,
                                value,
                            },
                            ..p
                        },
                        None,
                    )
                }
            }
        },
        (ProposerPhase::Accepting { accepted_by, value }, MessageKind::AckAcceptMsg(a)) => {
            if a.ballot != p.ballot || accepted_by.contains(a.sender) {
                (p, None)
            } else {
                let accepted = accepted_by.push(a.sender);
                if accepted.len() >= p.quorum_size {
                    (
                        ProposerView { phase: ProposerPhase::Learning, ..p },
                        Some(
                            MessageKind::LearnMsg(
                                Learn { sender: p.proposer_id, ballot: p.ballot, command: value },
                            ),
                        ),
                    )
                } else {
                    (
                        ProposerView {
                            phase: ProposerPhase::Accepting { accepted_by: accepted, value },
                            ..p
                        },
                        None,
                    )
                }
            }
        },
        _ => (p, None),
    }
}

/// Each acceptor is counted at most once in the phase the proposer is in.
pub open spec fn counts_each_once<C>(p: ProposerView<C>) -> bool {
    match p.phase {
        ProposerPhase::Proposal { promised_by, .. } => promised_by.no_duplicates(),
        ProposerPhase::Accepting { accepted_by, .. } => accepted_by.no_duplicates(),
        _ => true,
    }
}

/// Whatever a proposer handles, it counts each acceptor at most once, and it moves
/// on only with a quorum: it sends an Accept only after a quorum of distinct
/// acceptors promised its ballot, and a Learn only after a quorum of distinct
/// acceptors accepted it.
pub proof fn lemma_proposer_counts_once<C>(p: ProposerView<C>, m: MessageKind<C>)
    requires
        counts_each_once(p),
    ensures
        counts_each_once(proposer_step(p, m).0),
        proposer_step(p, m).1 matches Some(MessageKind::AcceptMsg(a)) ==> p.phase matches ProposerPhase::Proposal {
            promised_by,
            ..
        } && m matches MessageKind::PromiseMsg(pr) && pr.ballot == p.ballot && !promised_by.contains(pr.sender)
            && promised_by.len() + 1 >= p.quorum_size && a.ballot == p.ballot,
        proposer_step(p, m).1 matches Some(MessageKind::LearnMsg(l)) ==> p.phase matches ProposerPhase::Accepting {
            accepted_by,
            ..
        } && m matches MessageKind::AckAcceptMsg(ack) && ack.ballot == p.ballot && !accepted_by.contains(ack.sender)
            && accepted_by.len() + 1 >= p.quorum_size && l.ballot == p.ballot,
{
    match (p.phase, m) {
        (ProposerPhase::Proposal { promised_by, .. }, MessageKind::PromiseMsg(pr)) => {
            if pr.ballot == p.ballot && !promised_by.contains(pr.sender) {
                let q = promised_by.push(pr.sender);
                assert(q.no_duplicates()) by {
                    assert forall|i: int, j: int| 0 <= i < q.len() && 0 <= j < q.len() && i != j implies q[i] != q[j] by {
                        if i == q.len() - 1 && j < q.len() - 1 {
                            assert(promised_by[j] == q[j]);
                        } else if j == q.len() - 1 && i < q.len() - 1 {
                            assert(promised_by[i] == q[i]);
                        }
                    }
                }
            }
        },
        (ProposerPhase::Accepting { accepted_by, .. }, MessageKind::AckAcceptMsg(a)) => {
            if a.ballot == p.ballot && !accepted_by.contains(a.sender) {
                let q = accepted_by.push(a.sender);
                assert(q.no_duplicates()) by {
                    assert forall|i: int, j: int| 0 <= i < q.len() && 0 <= j < q.len() && i != j implies q[i] != q[j] by {
                        if i == q.len() - 1 && j < q.len() - 1 {
                            assert(accepted_by[j] == q[j]);
                        } else if j == q.len() - 1 && i < q.len() - 1 {
                            assert(accepted_by[i] == q[i]);
                        }
                    }
                }
            }
        },
        _ => {},
    }
}

/// The ballots of a proposer are its identifier plus a multiple of the number of
/// nodes: each Phase 1 moves to a higher ballot of the same class.
pub proof fn lemma_prepare_ballot_class<C>(p: ProposerView<C>, value: C)
    requires
        p.total_nodes > 0,
        p.ballot % p.total_nodes == p.proposer_id % p.total_nodes,
        p.ballot + p.total_nodes <= u32::MAX,
    ensures
        new_prepare_step(p, value).0.ballot == p.ballot + p.total_nodes,
        new_prepare_step(p, value).0.ballot % p.total_nodes == p.proposer_id % p.total_nodes,
        new_prepare_step(p, value).0.proposer_id == p.proposer_id,
{
    let t = p.total_nodes as int;
    let b = p.ballot as int;
    assert((b + t) % t == b % t) by (nonlinear_arith)
        requires
            t > 0,
            b >= 0,
    ;
}

/// Ballots of distinct proposers never coincide: a ballot's class is the
/// identifier of the only proposer that uses it.
pub proof fn lemma_ballots_unique(b1: u32, id1: u32, b2: u32, id2: u32, total: u32)
    requires
        id1 < total,
        id2 < total,
        b1 % total == id1,
        b2 % total == id2,
        id1 != id2,
    ensures
        b1 != b2,
{
}

/// Ballots keep growing: each Phase 1 of a proposer of a cluster of one node or
/// more moves to a strictly higher ballot.
pub proof fn lemma_prepare_raises_ballot<C>(p: ProposerView<C>, value: C)
    requires
        p.total_nodes >= 1,
        p.ballot + p.total_nodes <= u32::MAX,
    ensures
        new_prepare_step(p, value).0.ballot > p.ballot,
{
}

/// The proposal a proposer keeps is the highest reported: its ballot is at least
/// that of every reported proposal, and it is one of them.
pub proof fn lemma_higher_proposal<C>(cur: Option<MaxAcceptedProposal<C>>, new: Option<MaxAcceptedProposal<C>>)
    ensures
        higher_proposal(cur, new) is None <==> (cur is None && new is None),
        cur matches Some(c) ==> higher_proposal(cur, new).unwrap().ballot >= c.ballot,
        new matches Some(n) ==> higher_proposal(cur, new).unwrap().ballot >= n.ballot,
        higher_proposal(cur, new) == cur || higher_proposal(cur, new) == new,
{
}

#[derive(Debug, Clone)]
pub struct InitialState {}

#[derive(Debug, Clone)]
pub struct ProposalState<C> {
    /// The acceptors that promised the ballot.
    promised_by: Vec<SenderId>,
    /// The highest proposal that those promises reported.
    max_accepted: Option<MaxAcceptedProposal<C>>,
    value: C,
}

#[derive(Debug, Clone)]
pub struct AcceptingState<C> {
    /// The acceptors that accepted the ballot.
    accepted_by: Vec<SenderId>,
    value: C,
}

#[derive(Debug, Clone)]
pub struct StateWrapper<S> {
    state: S,
    ballot: Ballot,
    proposer_id: u32,
    quorum_size: u32,
    total_nodes: u32,
}

#[derive(Debug, Clone)]
pub enum InnerState<C> {
    Initial(StateWrapper<InitialState>),
    Proposal(StateWrapper<ProposalState<C>>),
    Accepting(StateWrapper<AcceptingState<C>>),
    Learning(StateWrapper<InitialState>),
}

#[derive(Debug, Clone)]
pub struct Proposer<C> {
    inner_state: InnerState<C>,
}

impl<S> StateWrapper<S> {
    /// The view of a wrapper with the given phase.
    pub closed spec fn with_phase<C>(&self, phase: ProposerPhase<C>) -> ProposerView<C> {
        ProposerView {
            phase,
            ballot: self.ballot,
            proposer_id: self.proposer_id,
            quorum_size: self.quorum_size,
            total_nodes: self.total_nodes,
        }
    }

    pub closed spec fn ballot_spec(&self) -> Ballot {
        self.ballot
    }

    pub closed spec fn total_nodes_spec(&self) -> u32 {
        self.total_nodes
    }
}

impl<C> StateWrapper<ProposalState<C>> {
    pub closed spec fn view_proposal(&self) -> ProposerView<C> {
        self.with_phase(
            ProposerPhase::Proposal {
                promised_by: self.state.promised_by@,
                max_accepted: self.state.max_accepted,
                value: self.state.value,
            },
        )
    }
}

impl<C> StateWrapper<AcceptingState<C>> {
    pub closed spec fn view_accepting(&self) -> ProposerView<C> {
        self.with_phase(
            ProposerPhase::Accepting { accepted_by: self.state.accepted_by@, value: self.state.value },
        )
    }
}

impl<C> View for InnerState<C> {
    type V = ProposerView<C>;

    closed spec fn view(&self) -> ProposerView<C> {
        match self {
            InnerState::Initial(w) => w.with_phase(ProposerPhase::Initial),
            InnerState::Proposal(w) => w.view_proposal(),
            InnerState::Accepting(w) => w.view_accepting(),
            InnerState::Learning(w) => w.with_phase(ProposerPhase::Learning),
        }
    }
}

impl<C> View for Proposer<C> {
    type V = ProposerView<C>;

    closed spec fn view(&self) -> ProposerView<C> {
        self.inner_state@
    }
}

/// Whether `x` occurs in `v`.
fn contains_id(v: &Vec<SenderId>, x: SenderId) -> (r: bool)
    ensures
        r == v@.contains(x),
{
    let mut i: usize = 0;
    while i < v.len()
        invariant
            i <= v.len(),
            forall|j: int| 0 <= j < i ==> v@[j] != x,
        decreases v.len() - i,
    {
        if v[i] == x {
            return true;
        }
        i = i + 1;
    }
    false
}

/// The higher of the current and the newly reported proposal.
fn pick_higher<C: CommandTrait>(
    cur: Option<MaxAcceptedProposal<C>>,
    new: Option<MaxAcceptedProposal<C>>,
) -> (r: Option<MaxAcceptedProposal<C>>)
    ensures
        r == higher_proposal(cur, new),
{
    match new {
        None => cur,
        Some(n) => match cur {
            None => Some(n),
            Some(c) => if n.ballot > c.ballot {
                Some(n)
            } else {
                Some(c)
            },
        },
    }
}

impl<S> StateWrapper<S> {
    /// Starts Phase 1 with the next ballot of this proposer: the ballot grows by the
    /// number of nodes, so that each proposer keeps ballots of its own.
    pub fn new_prepare<C>(&mut self, value: C) -> (r: (Option<MessageKind<C>>, InnerState<C>))
        requires
            old(self).ballot_spec() + old(self).total_nodes_spec() <= u32::MAX,
        ensures
            final(self).with_phase(ProposerPhase::<C>::Initial) == (ProposerView::<C> {
                ballot: (old(self).ballot_spec() + old(self).total_nodes_spec()) as u32,
                ..old(self).with_phase(ProposerPhase::<C>::Initial)
            }),
            (r.1@, r.0) == ({
                let (q, m) = new_prepare_step(old(self).with_phase(ProposerPhase::<C>::Initial), value);
                (q, Some(m))
            }),
    {
        self.ballot = self.ballot + self.total_nodes;
        (
            Some(MessageKind::PrepareMsg(Prepare { sender: self.proposer_id, ballot: self.ballot })),
            InnerState::Proposal(
                StateWrapper {
                    state: ProposalState { promised_by: Vec::new(), max_accepted: None, value },
                    ballot: self.ballot,
                    proposer_id: self.proposer_id,
                    quorum_size: self.quorum_size,
                    total_nodes: self.total_nodes,
                },
            ),
        )
    }
}

impl<C: CommandTrait> StateWrapper<ProposalState<C>> {
    /// Counts a promise for this ballot; with a quorum, moves to Phase 2 with the
    /// command of the highest reported proposal, or the proposer's own.
    pub fn handle_promise(self, response: Promise<C>) -> (r: (Option<Accept<C>>, InnerState<C>))
        ensures
            ({
                let (q, m) = proposer_step(self.view_proposal(), MessageKind::PromiseMsg(response));
                &&& r.1@ == q
                &&& m == (match r.0 {
                    Some(a) => Some(MessageKind::AcceptMsg(a)),
                    None => None,
                })
            }),
    {
        if response.ballot != self.ballot || contains_id(&self.state.promised_by, response.sender) {
            return (None, InnerState::Proposal(self));
        }
        let ballot = self.ballot;
        let proposer_id = self.proposer_id;
        let quorum_size = self.quorum_size;
        let total_nodes = self.total_nodes;
        let mut promised_by = self.state.promised_by;
        promised_by.push(response.sender);
        let best = pick_higher(self.state.max_accepted, response.max_accepted);
        if promised_by.len() >= quorum_size as usize {
            let cmd = match &best {
                Some(p) => p.command.clone_command(),
                None => self.state.value,
            };
            (
                Some(Accept { sender: proposer_id, ballot, command: cmd.clone_command() }),
                InnerState::Accepting(
                    StateWrapper {
                        state: AcceptingState { accepted_by: Vec::new(), value: cmd },
                        ballot,
                        proposer_id,
                        quorum_size,
                        total_nodes,
                    },
                ),
            )
        } else {
            (
                None,
                InnerState::Proposal(
                    StateWrapper {
                        state: ProposalState {
                            promised_by,
                            max_accepted: best,
                            value: self.state.value,
                        },
                        ballot,
                        proposer_id,
                        quorum_size,
                        total_nodes,
                    },
                ),
            )
        }
    }
}

impl<C: CommandTrait> StateWrapper<AcceptingState<C>> {
    /// Counts an acknowledgement for this ballot; with a quorum, the command is
    /// chosen and the proposer sends a Learn. Acknowledgements of another ballot
    /// (old messages, perhaps from before a restart) are ignored.
    pub fn handle_ack_accept(self, ack_accept: AckAccept) -> (r: (Option<Learn<C>>, InnerState<C>))
        ensures
            ({
                let (q, m) = proposer_step(self.view_accepting(), MessageKind::AckAcceptMsg(ack_accept));
                &&& r.1@ == q
                &&& m == (match r.0 {
                    Some(l) => Some(MessageKind::LearnMsg(l)),
                    None => None,
                })
            }),
    {
        if ack_accept.ballot != self.ballot || contains_id(&self.state.accepted_by, ack_accept.sender) {
            return (None, InnerState::Accepting(self));
        }
        let mut accepted_by = self.state.accepted_by;
        accepted_by.push(ack_accept.sender);
        if accepted_by.len() >= self.quorum_size as usize {
            (
                Some(Learn { sender: self.proposer_id, ballot: self.ballot, command: self.state.value }),
                InnerState::Learning(
                    StateWrapper {
                        state: InitialState {},
                        ballot: self.ballot,
                        proposer_id: self.proposer_id,
                        quorum_size: self.quorum_size,
                        total_nodes: self.total_nodes,
                    },
                ),
            )
        } else {
            (
                None,
                InnerState::Accepting(
                    StateWrapper {
                        state: AcceptingState { accepted_by, value: self.state.value },
                        ballot: self.ballot,
                        proposer_id: self.proposer_id,
                        quorum_size: self.quorum_size,
                        total_nodes: self.total_nodes,
                    },
                ),
            )
        }
    }
}

impl<C: CommandTrait> InnerState<C> {
    /// Starts Phase 1 from any phase.
    pub fn new_prepare(&mut self, value: C) -> (r: (Option<MessageKind<C>>, InnerState<C>))
        requires
            old(self)@.ballot + old(self)@.total_nodes <= u32::MAX,
        ensures
            (r.1@, r.0) == ({
                let (q, m) = new_prepare_step(old(self)@, value);
                (q, Some(m))
            }),
            final(self)@.ballot == new_prepare_step(old(self)@, value).0.ballot,
    {
        match self {
            InnerState::Initial(w) => w.new_prepare(value),
            InnerState::Proposal(w) => w.new_prepare(value),
            InnerState::Accepting(w) => w.new_prepare(value),
            InnerState::Learning(w) => w.new_prepare(value),
        }
    }

    /// The proposer's answer to a message, and its next state.
    pub fn handle_message(self, message: MessageKind<C>) -> (r: (Option<MessageKind<C>>, InnerState<C>))
        requires
            self@.phase is Initial && message is RequestCommandToLeader ==> self@.ballot + self@.total_nodes
                <= u32::MAX,
        ensures
            (r.1@, r.0) == proposer_step(self@, message),
    {
        match (self, message) {
            (InnerState::Initial(mut w), MessageKind::RequestCommandToLeader { cmd, .. }) => {
                w.new_prepare(cmd)
            },
            (InnerState::Proposal(w), MessageKind::PromiseMsg(promise)) => {
                let (m, s) = w.handle_promise(promise);
                match m {
                    Some(a) => (Some(MessageKind::AcceptMsg(a)), s),
                    None => (None, s),
                }
            },
            (InnerState::Accepting(w), MessageKind::AckAcceptMsg(ack)) => {
                let (m, s) = w.handle_ack_accept(ack);
                match m {
                    Some(l) => (Some(MessageKind::LearnMsg(l)), s),
                    None => (None, s),
                }
            },
            (s, _) => (None, s),
        }
    }
}

impl<C: CommandTrait> Proposer<C> {
    pub fn new(proposer_id: u32, quorum_size: u32, total_nodes: u32) -> (r: Self)
        ensures
            r@ == (ProposerView::<C> {
                phase: ProposerPhase::Initial,
                ballot: proposer_id,
                proposer_id,
                quorum_size,
                total_nodes,
            }),
    {
        Self {
            inner_state: InnerState::Initial(
                StateWrapper {
                    state: InitialState {},
                    ballot: proposer_id,
                    proposer_id,
                    quorum_size,
                    total_nodes,
                },
            ),
        }
    }

    /// Starts Phase 1 for `value` with this proposer's next ballot.
    pub fn new_prepare(&mut self, value: C) -> (r: MessageKind<C>)
        requires
            old(self)@.ballot + old(self)@.total_nodes <= u32::MAX,
        ensures
            (final(self)@, r) == new_prepare_step(old(self)@, value),
    {
        let (msg, new_state) = self.inner_state.new_prepare(value);
        self.inner_state = new_state;
        match msg {
            Some(m) => m,
            None => MessageKind::PrepareMsg(Prepare { sender: 0, ballot: 0 }),
        }
    }

    /// Starts Phase 2 for `value` directly in `ballot`, a ballot this node already won.
    pub fn new_accept(&mut self, ballot: Ballot, value: C) -> (r: MessageKind<C>)
        ensures
            (final(self)@, r) == new_accept_step(old(self)@, ballot, value),
    {
        let (proposer_id, quorum_size, total_nodes) = match &self.inner_state {
            InnerState::Initial(w) => (w.proposer_id, w.quorum_size, w.total_nodes),
            InnerState::Proposal(w) => (w.proposer_id, w.quorum_size, w.total_nodes),
            InnerState::Accepting(w) => (w.proposer_id, w.quorum_size, w.total_nodes),
            InnerState::Learning(w) => (w.proposer_id, w.quorum_size, w.total_nodes),
        };
        let msg = MessageKind::AcceptMsg(
            Accept { sender: proposer_id, ballot, command: value.clone_command() },
        );
        self.inner_state = InnerState::Accepting(
            StateWrapper {
                state: AcceptingState { accepted_by: Vec::new(), value },
                ballot,
                proposer_id,
                quorum_size,
                total_nodes,
            },
        );
        msg
    }

    /// Handles a message; returns the message to send in answer, if any.
    pub fn handle_message(&mut self, message: MessageKind<C>) -> (r: Option<MessageKind<C>>)
        requires
            old(self)@.phase is Initial && message is RequestCommandToLeader ==> old(self)@.ballot + old(
                self,
            )@.total_nodes <= u32::MAX,
        ensures
            (final(self)@, r) == proposer_step(old(self)@, message),
    {
        let mut state = InnerState::Learning(
            StateWrapper { state: InitialState {}, ballot: 0, proposer_id: 0, quorum_size: 0, total_nodes: 0 },
        );
        core::mem::swap(&mut state, &mut self.inner_state);
        let (resp_message, new_state) = state.handle_message(message);
        self.inner_state = new_state;
        resp_message
    }

    /// The ballot the proposer is working in.
    pub fn ballot(&self) -> (r: Ballot)
        ensures
            r == self@.ballot,
    {
        match &self.inner_state {
            InnerState::Initial(w) => w.ballot,
            InnerState::Proposal(w) => w.ballot,
            InnerState::Accepting(w) => w.ballot,
            InnerState::Learning(w) => w.ballot,
        }
    }

    /// How many acceptors promised the current ballot (zero outside Phase 1).
    pub fn promise_count(&self) -> (r: usize)
        ensures
            r == (match self@.phase {
                ProposerPhase::Proposal { promised_by, .. } => promised_by.len(),
                _ => 0,
            }),
    {
        match &self.inner_state {
            InnerState::Proposal(w) => w.state.promised_by.len(),
            _ => 0,
        }
    }

    /// How many acceptors accepted the current ballot (zero outside Phase 2).
    pub fn accept_count(&self) -> (r: usize)
        ensures
            r == (match self@.phase {
                ProposerPhase::Accepting { accepted_by, .. } => accepted_by.len(),
                _ => 0,
            }),
    {
        match &self.inner_state {
            InnerState::Accepting(w) => w.state.accepted_by.len(),
            _ => 0,
        }
    }

    /// The highest proposal reported by the promises so far (none outside Phase 1).
    pub fn highest_reported(&self) -> (r: Option<MaxAcceptedProposal<C>>)
        ensures
            r == (match self@.phase {
                ProposerPhase::Proposal { max_accepted, .. } => max_accepted,
                _ => None,
            }),
    {
        match &self.inner_state {
            InnerState::Proposal(w) => duplicate_max_accepted(&w.state.max_accepted),
            _ => None,
        }
    }

    /// The command the proposer is working for, in Phase 1 or 2.
    pub fn proposed_value(&self) -> (r: Option<C>)
        ensures
            r == (match self@.phase {
                ProposerPhase::Proposal { value, .. } => Some(value),
                ProposerPhase::Accepting { value, .. } => Some(value),
                _ => None,
            }),
    {
        match &self.inner_state {
            InnerState::Proposal(w) => Some(w.state.value.clone_command()),
            InnerState::Accepting(w) => Some(w.state.value.clone_command()),
            _ => None,
        }
    }

    /// Which phase the proposer is in: 0 initial, 1 collecting promises, 2
    /// collecting acknowledgements, 3 done.
    pub fn phase_index(&self) -> (r: u8)
        ensures
            r == (match self@.phase {
                ProposerPhase::Initial => 0u8,
                ProposerPhase::Proposal { .. } => 1u8,
                ProposerPhase::Accepting { .. } => 2u8,
                ProposerPhase::Learning => 3u8,
            }),
    {
        match &self.inner_state {
            InnerState::Initial(_) => 0,
            InnerState::Proposal(_) => 1,
            InnerState::Accepting(_) => 2,
            InnerState::Learning(_) => 3,
        }
    }
}

} // verus!
