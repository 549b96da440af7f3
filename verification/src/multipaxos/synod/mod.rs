//! A single Paxos instance (the synod protocol): acceptor, proposer and learner of
//! one slot of the replicated log, on one node.
pub mod acceptor;
pub mod learner;
pub mod messages;
pub mod proposer;

pub use acceptor::Acceptor;
pub use learner::Learner;
pub use messages::{
    Accept, AckAccept, Learn, MaxAcceptedProposal, Message, MessageKind, NackAccept, NackPrepare,
    Prepare, Promise, SenderId,
};
pub use proposer::{Proposer, ProposerPhase, ProposerView};

use crate::commands::{CommandTrait, SerializableCommand};
use crate::multipaxos::storage::{stored_after_event, AcceptorState, PaxosStorage, PersistEvent};
use acceptor::{accept_step, prepare_step};
use learner::{learn_step, LearnerView};
use proposer::{new_accept_step, new_prepare_step, proposer_step};
use vstd::prelude::*;

verus! {

/// What a Paxos instance holds.
#[verifier::reject_recursive_types(C)]
pub struct InstanceView<C> {
    pub acceptor: Acceptor<C>,
    pub proposer: ProposerView<C>,
    pub learner: LearnerView<C>,
    pub instance_id: u64,
}

#[derive(Debug, Clone)]
pub struct PaxosInstance<C> {
    acceptor: Acceptor<C>,
    pub(crate) proposer: Proposer<C>,
    learner: Learner<C>,
    instance_id: u64,
}

impl<C> View for PaxosInstance<C> {
    type V = InstanceView<C>;

    closed spec fn view(&self) -> InstanceView<C> {
        InstanceView {
            acceptor: self.acceptor,
            proposer: self.proposer@,
            learner: self.learner@,
            instance_id: self.instance_id,
        }
    }
}

/// A new instance of node `node_id`: nothing promised, accepted or learned, and a
/// proposer that has not started, holding its first ballot.
pub open spec fn fresh_instance<C>(node_id: u32, quorum_size: u32, total_nodes: u32, instance_id: u64) -> InstanceView<C> {
    InstanceView {
        acceptor: Acceptor { my_id: node_id, max_ballot: 0, max_accepted: None },
        proposer: ProposerView {
            phase: ProposerPhase::Initial,
            ballot: node_id,
            proposer_id: node_id,
            quorum_size,
            total_nodes,
        },
        learner: LearnerView {
            value: None,
            voters: Seq::empty(),
            tally: Map::empty(),
            ballot: 0,
            quorum_size,
        },
        instance_id,
    }
}

/// The instance's state, its answer, and what it asks to persist, after a message.
pub open spec fn instance_step<C>(v: InstanceView<C>, m: MessageKind<C>) -> (InstanceView<C>, Option<
    MessageKind<C>,
>, Option<PersistEvent<C>>) {
    match m {
        MessageKind::PrepareMsg(p) => {
            let (a, r) = prepare_step(v.acceptor, p);
            (
                InstanceView { acceptor: a, ..v },
                Some(r),
                if r is PromiseMsg {
                    Some(PersistEvent::Promise { instance_id: v.instance_id, ballot: a.max_ballot })
                } else {
                    None
                },
            )
        },
        MessageKind::AcceptMsg(acc) => {
            let (a, r) = accept_step(v.acceptor, acc);
            (
                InstanceView { acceptor: a, ..v },
                Some(r),
                if r is AckAcceptMsg {
                    Some(
                        PersistEvent::Accept {
                            instance_id: v.instance_id,
                            ballot: a.max_ballot,
                            command: acc.command,
                        },
                    )
                } else {
                    None
                },
            )
        },
        MessageKind::LearnMsg(l) => {
            let already = v.learner.value is Some;
            let (ln, _) = learn_step(v.learner, l);
            (
                InstanceView { learner: ln, ..v },
                if !already && l.sender != v.acceptor.my_id {
                    Some(
                        MessageKind::LearnMsg(
                            Learn { sender: v.acceptor.my_id, ballot: l.ballot, command: l.command },
                        ),
                    )
                } else {
                    None
                },
                None,
            )
        },
        MessageKind::RequestCommandToLeader { cmd, .. } => {
            let (q, r) = proposer_step(
                v.proposer,
                MessageKind::RequestCommandToLeader { cmd, forward_id: 0 },
            );
            (InstanceView { proposer: q, ..v }, r, None)
        },
        MessageKind::PromiseMsg(_) | MessageKind::AckAcceptMsg(_) | MessageKind::NackPrepareMsg(_)
        | MessageKind::NackAcceptMsg(_) => {
            let (q, r) = proposer_step(v.proposer, m);
            (InstanceView { proposer: q, ..v }, r, None)
        },
        _ => (v, None, None),
    }
}

/// The position of a message in the order in which an instance's answers follow
/// each other: every answer an instance gives ranks above the message it answers.
pub open spec fn message_rank<C>(m: MessageKind<C>, my_id: SenderId) -> nat {
    match m {
        MessageKind::RequestCommandToLeader { .. } => 0,
        MessageKind::PrepareMsg(_) => 1,
        MessageKind::PromiseMsg(_) => 2,
        MessageKind::NackPrepareMsg(_) => 2,
        MessageKind::AcceptMsg(_) => 3,
        MessageKind::AckAcceptMsg(_) => 4,
        MessageKind::NackAcceptMsg(_) => 4,
        MessageKind::LearnMsg(l) => if l.sender == my_id {
            6
        } else {
            5
        },
        MessageKind::ForwardAck { .. } => 7,
        MessageKind::LearnedCommand { .. } => 7,
    }
}

impl<C> InstanceView<C> {
    /// What every instance keeps: its learner is well formed, its proposer speaks for
    /// the node of its acceptor, and a proposer that has not started still holds
    /// its first ballot, its own identifier.
    pub open spec fn well_formed(&self) -> bool {
        &&& self.learner.well_formed()
        &&& self.proposer.proposer_id == self.acceptor.my_id
        &&& self.proposer.phase is Initial ==> self.proposer.ballot == self.proposer.proposer_id
    }

    /// A Phase 1 started from this instance's first ballot does not overflow.
    pub open spec fn ballots_fit(&self) -> bool {
        self.proposer.phase is Initial ==> self.proposer.ballot + self.proposer.total_nodes <= u32::MAX
    }
}

impl<C: CommandTrait> PaxosInstance<C> {
    /// The parts of the instance are well formed and consistent.
    pub closed spec fn well_formed(&self) -> bool {
        &&& self.learner.well_formed()
        &&& self@.well_formed()
    }

    pub fn new(node_id: u32, quorum_size: u32, total_nodes: u32, instance_id: u64) -> (r: Self)
        requires
            quorum_size >= 2,
        ensures
            r.well_formed(),
            r@ == fresh_instance::<C>(node_id, quorum_size, total_nodes, instance_id),
    {
        let acceptor = Acceptor::new(node_id);
        let proposer = Proposer::new(node_id, quorum_size, total_nodes);
        let learner = Learner::new(quorum_size);
        let r = Self { acceptor, proposer, learner, instance_id };
        assert(r@.learner == fresh_instance::<C>(node_id, quorum_size, total_nodes, instance_id).learner);
        r
    }

    /// Starts Phase 1 of this instance's proposer for `value`.
    pub fn start_prepare(&mut self, value: C) -> (r: MessageKind<C>)
        requires
            old(self).well_formed(),
            old(self)@.proposer.ballot + old(self)@.proposer.total_nodes <= u32::MAX,
        ensures
            final(self).well_formed(),
            final(self)@ == (InstanceView {
                proposer: new_prepare_step(old(self)@.proposer, value).0,
                ..old(self)@
            }),
            r == new_prepare_step(old(self)@.proposer, value).1,
    {
        self.proposer.new_prepare(value)
    }

    /// Starts Phase 2 of this instance's proposer for `value` in `ballot`.
    pub fn start_accept(&mut self, ballot: u32, value: C) -> (r: MessageKind<C>)
        requires
            old(self).well_formed(),
        ensures
            final(self).well_formed(),
            final(self)@ == (InstanceView {
                proposer: new_accept_step(old(self)@.proposer, ballot, value).0,
                ..old(self)@
            }),
            r == new_accept_step(old(self)@.proposer, ballot, value).1,
    {
        self.proposer.new_accept(ballot, value)
    }

    /// Restores the acceptor's promised ballot and accepted proposal from persisted
    /// state.
    pub fn restore_acceptor(&mut self, state: &AcceptorState<C>)
        requires
            old(self).well_formed(),
        ensures
            final(self).well_formed(),
            final(self)@ == (InstanceView {
                acceptor: Acceptor {
                    my_id: old(self)@.acceptor.my_id,
                    max_ballot: state.max_ballot,
                    max_accepted: match state.max_accepted {
                        Some(v) => Some(MaxAcceptedProposal { ballot: v.ballot, command: v.command }),
                        None => None,
                    },
                },
                ..old(self)@
            }),
    {
        self.acceptor.max_ballot = state.max_ballot;
        self.acceptor.max_accepted = match &state.max_accepted {
            Some(v) => Some(MaxAcceptedProposal { ballot: v.ballot, command: v.command.clone_command() }),
            None => None,
        };
    }

    /// The learned command, if any.
    pub fn get_value(&self) -> (r: Option<C>)
        ensures
            r == self@.learner.value,
    {
        self.learner.value()
    }

    /// This node's identifier.
    pub fn node_id(&self) -> (r: u32)
        ensures
            r == self@.acceptor.my_id,
    {
        self.acceptor.my_id
    }

    /// The highest ballot the acceptor has promised or accepted.
    pub fn promised_ballot(&self) -> (r: u32)
        ensures
            r == self@.acceptor.max_ballot,
    {
        self.acceptor.max_ballot
    }
}

impl<C: CommandTrait + SerializableCommand> PaxosInstance<C> {
    /// Handles a message of this instance: Prepare and Accept go to the acceptor
    /// (which persists what it promises and accepts when storage is given), Learn
    /// to the learner (which passes the message on under this node's identifier if
    /// it has not learned yet and the message is not its own), and the answers to
    /// the proposer's messages to the proposer.
    pub fn handle_message(
        &mut self,
        message: MessageKind<C>,
        storage: Option<&mut PaxosStorage<C>>,
    ) -> (r: crate::Result<Option<MessageKind<C>>>)
        requires
            old(self).well_formed(),
            old(self)@.proposer.phase is Initial && message is RequestCommandToLeader
                ==> old(self)@.proposer.ballot + old(self)@.proposer.total_nodes <= u32::MAX,
        ensures
            final(self).well_formed(),
            old(self)@.ballots_fit() ==> final(self)@.ballots_fit(),
            final(self)@ == instance_step(old(self)@, message).0,
            r is Ok ==> r.unwrap() == instance_step(old(self)@, message).1,
            storage is None ==> r is Ok,
            r is Err ==> instance_step(old(self)@, message).2 is Some,
            storage matches Some(s) ==> final(s).saved() == match instance_step(old(self)@, message).2 {
                Some(e) => s.saved().push(e),
                None => s.saved(),
            },
            storage matches Some(s) ==> final(s).outcomes() == match instance_step(old(self)@, message).2 {
                Some(_) => s.outcomes().push(r is Ok),
                None => s.outcomes(),
            },
            r is Ok ==> (storage matches Some(s) ==> final(s).stored() == stored_after_event(
                s.stored(),
                instance_step(old(self)@, message).2,
            )),
    {
        let ghost v0 = self@;
        proof {
            lemma_instance_step_well_formed(v0, message);
        }
        match message {
            MessageKind::PrepareMsg(prepare) => {
                let response = self.acceptor.handle_prepare(prepare);
                if let MessageKind::PromiseMsg(_) = &response {
                    if let Some(s) = storage {
                        s.save_promise(self.instance_id, self.acceptor.max_ballot)?;
                    }
                }
                Ok(Some(response))
            },
            MessageKind::AcceptMsg(accept) => {
                let command = accept.command.clone_command();
                let response = self.acceptor.handle_accept(accept);
                if let MessageKind::AckAcceptMsg(_) = &response {
                    if let Some(s) = storage {
                        s.save_accept(self.instance_id, self.acceptor.max_ballot, &command)?;
                    }
                }
                Ok(Some(response))
            },
            MessageKind::LearnMsg(learn) => {
                let already_learned = self.learner.is_value_learned();
                let _ = self.learner.handle_learn(learn.duplicate())?;
                if !already_learned && learn.sender != self.acceptor.my_id {
                    Ok(
                        Some(
                            MessageKind::LearnMsg(
                                Learn {
                                    sender: self.acceptor.my_id,
                                    ballot: learn.ballot,
                                    command: learn.command,
                                },
                            ),
                        ),
                    )
                } else {
                    Ok(None)
                }
            },
            MessageKind::RequestCommandToLeader { cmd, .. } => {
                Ok(self.proposer.handle_message(MessageKind::RequestCommandToLeader { cmd, forward_id: 0 }))
            },
            MessageKind::PromiseMsg(promise) => {
                Ok(self.proposer.handle_message(MessageKind::PromiseMsg(promise)))
            },
            MessageKind::AckAcceptMsg(ack) => {
                Ok(self.proposer.handle_message(MessageKind::AckAcceptMsg(ack)))
            },
            MessageKind::NackPrepareMsg(nack) => {
                Ok(self.proposer.handle_message(MessageKind::NackPrepareMsg(nack)))
            },
            MessageKind::NackAcceptMsg(nack) => {
                Ok(self.proposer.handle_message(MessageKind::NackAcceptMsg(nack)))
            },
            _ => Ok(None),
        }
    }
}

/// Handling a message keeps an instance well formed, and its first ballot usable
/// where it was.
pub proof fn lemma_instance_step_well_formed<C>(v: InstanceView<C>, m: MessageKind<C>)
    requires
        v.well_formed(),
        v.proposer.phase is Initial && m is RequestCommandToLeader ==> v.proposer.ballot + v.proposer.total_nodes
            <= u32::MAX,
    ensures
        instance_step(v, m).0.well_formed(),
        v.ballots_fit() ==> instance_step(v, m).0.ballots_fit(),
        instance_step(v, m).0.instance_id == v.instance_id,
        instance_step(v, m).0.acceptor.my_id == v.acceptor.my_id,
        instance_step(v, m).0.proposer.proposer_id == v.proposer.proposer_id,
        instance_step(v, m).0.proposer.total_nodes == v.proposer.total_nodes,
        instance_step(v, m).0.proposer.quorum_size == v.proposer.quorum_size,
        instance_step(v, m).0.learner.quorum_size == v.learner.quorum_size,
{
    match m {
        MessageKind::LearnMsg(l) => {
            learner::lemma_learning_needs_quorum(v.learner, l);
        },
        _ => {},
    }
}

/// Every answer that an instance gives ranks above the message it answers; so a
/// node that feeds an instance its own answers stops after a few steps.
pub proof fn lemma_answer_rank_increases<C>(v: InstanceView<C>, m: MessageKind<C>)
    requires
        v.well_formed(),
    ensures
        instance_step(v, m).1 matches Some(r) ==> message_rank(r, v.acceptor.my_id) > message_rank(
            m,
            v.acceptor.my_id,
        ),
        message_rank(m, v.acceptor.my_id) <= 7,
{
}

/// What an instance asks to persist is exactly the change of its acceptor: a
/// promise records the new promised ballot, an acceptance records the new ballot
/// and accepted command, and when nothing is to be persisted the acceptor did not
/// change. So an acceptor restored from the saves of its instance is the acceptor
/// as it was.
pub proof fn lemma_persisted_acceptor<C>(v: InstanceView<C>, m: MessageKind<C>)
    ensures
        instance_step(v, m).2 is None ==> instance_step(v, m).0.acceptor == v.acceptor,
        instance_step(v, m).2 matches Some(PersistEvent::Promise { instance_id, ballot }) ==> {
            &&& instance_id == v.instance_id
            &&& instance_step(v, m).0.acceptor == (Acceptor { max_ballot: ballot, ..v.acceptor })
        },
        instance_step(v, m).2 matches Some(PersistEvent::Accept { instance_id, ballot, command }) ==> {
            &&& instance_id == v.instance_id
            &&& instance_step(v, m).0.acceptor == (Acceptor {
                max_ballot: ballot,
                max_accepted: Some(MaxAcceptedProposal { ballot, command }),
                ..v.acceptor
            })
        },
{
}

} // verus!
