//! Multi-Paxos: one Paxos instance per slot of the replicated log.
//!
//! A node proposes a command in the next free instance, starting with Phase 1 of
//! that instance. A node that won a round becomes the leader, and loses the
//! leadership when it promises a higher ballot or an acceptor refuses its Accept
//! with a higher ballot. A node that knows another leader forwards its proposals
//! to it; the leader places them and answers with the instance it chose.
pub mod agreement;
pub mod node_agreement;
pub mod recovery;
pub mod storage;
pub mod trace;
pub mod synod;

pub use synod::{
    Accept, AckAccept, Acceptor, Learn, Learner, MaxAcceptedProposal, Message, MessageKind,
    NackAccept, NackPrepare, PaxosInstance, Prepare, Promise, Proposer, SenderId,
};

use crate::commands::{CommandTrait, SerializableCommand};
use crate::config::SmrConfig;
use crate::{CommitResult, ProposalResult, StateMachine, StateMachineReplicationAlgorithm};
use std::collections::{HashMap, HashSet};
use storage::{
    promise_key_spec, state_of_record, stored_after_event, stored_record, AcceptorState, PaxosStorage, PersistEvent,
};
use synod::proposer::new_prepare_step;
use synod::{fresh_instance, instance_step, message_rank, InstanceView};
use vstd::prelude::*;

verus! {

broadcast use vstd::std_specs::hash::group_hash_axioms;

/// A ballot number.
pub type Ballot = u32;

/// Identifies a local proposal whose outcome the caller waits for.
#[derive(Clone, Copy, Debug, PartialEq, Eq, Hash)]
pub enum ProposalTicket {
    /// Proposed by this node in the given instance.
    Local(u64),
    /// Forwarded to the leader under the given forward identifier.
    Forwarded(u64),
}

/// The quorum of a cluster: a strict majority.
pub open spec fn quorum_of(total_nodes: u32) -> u32 {
    (total_nodes / 2 + 1) as u32
}

/// The elements of an optional value.
pub open spec fn seq_of_opt<T>(o: Option<T>) -> Seq<T> {
    match o {
        Some(x) => seq![x],
        None => Seq::empty(),
    }
}

/// Feeds an instance a message, then its own answers until it answers nothing:
/// the final instance, every answer in order, and every save requested.
pub open spec fn cascade<C>(v: InstanceView<C>, m: MessageKind<C>) -> (InstanceView<C>, Seq<
    MessageKind<C>,
>, Seq<PersistEvent<C>>)
    decreases 8 - message_rank(m, v.acceptor.my_id),
    when v.well_formed() && v.ballots_fit()
{
    let (v1, r, e) = instance_step(v, m);
    match r {
        None => (v1, Seq::empty(), seq_of_opt(e)),
        Some(resp) => {
            proof {
                synod::lemma_answer_rank_increases(v, m);
                synod::lemma_instance_step_well_formed(v, m);
            }
            let (v2, rs, es) = cascade(v1, resp);
            (v2, seq![resp] + rs, seq_of_opt(e) + es)
        },
    }
}

/// The messages a node sends for answers of instance `iid`.
pub open spec fn wrap_all<C>(id: u32, iid: u64, ms: Seq<MessageKind<C>>) -> Seq<Message<C>> {
    ms.map_values(|m: MessageKind<C>| Message { sender_id: id, paxos_instance: iid, msg: m })
}

/// What a node holds.
#[verifier::reject_recursive_types(C)]
pub struct NodeView<C> {
    pub id: u32,
    pub total_nodes: u32,
    /// The other nodes of the cluster, with their addresses.
    pub other_nodes: Seq<(u32, String)>,
    /// The address this node listens on.
    pub bind_address: Seq<char>,
    pub instances: Map<u64, InstanceView<C>>,
    /// The local proposals waiting for the outcome of an instance.
    pub pending: Map<u64, ProposalTicket>,
    pub next_instance_id: u64,
    /// The ballot of the last round this node won, while it leads.
    pub leader_ballot: Option<Ballot>,
    /// The node this node last saw win a round, when it is not itself the leader.
    pub known_leader_id: Option<u32>,
    /// The forwarded proposals that the leader has not placed yet.
    pub forwarded: Set<u64>,
    pub next_forward_id: u64,
    /// On the leader: the forwarder and forward identifier of each placed proposal.
    pub forwarded_instances: Map<u64, (u32, u64)>,
    /// The saves requested from durable storage, when the node has one.
    pub saved: Option<Seq<PersistEvent<C>>>,
}

/// The saves after some more were requested.
pub open spec fn saved_after<C>(saved: Option<Seq<PersistEvent<C>>>, es: Seq<PersistEvent<C>>) -> Option<
    Seq<PersistEvent<C>>,
> {
    match saved {
        Some(s) => Some(s + es),
        None => None,
    }
}

/// The saves requested from an optional storage.
pub open spec fn storage_saved<C>(s: Option<PaxosStorage<C>>) -> Option<Seq<PersistEvent<C>>> {
    match s {
        Some(st) => Some(st.saved()),
        None => None,
    }
}

/// The map that an optional storage's backend holds.
pub open spec fn storage_stored<C>(s: Option<PaxosStorage<C>>) -> Option<Map<Seq<u8>, Seq<u8>>> {
    match s {
        Some(st) => Some(st.stored()),
        None => None,
    }
}

/// The stored map after the saves `es` all succeeded, in order.
pub open spec fn stored_after_events<C: SerializableCommand>(
    stored: Map<Seq<u8>, Seq<u8>>,
    es: Seq<PersistEvent<C>>,
) -> Map<Seq<u8>, Seq<u8>>
    decreases es.len(),
{
    if es.len() == 0 {
        stored
    } else {
        stored_after_event(stored_after_events(stored, es.drop_last()), Some(es.last()))
    }
}

/// The optional stored map after the saves `es` all succeeded.
pub open spec fn stored_after_saves<C: SerializableCommand>(
    stored: Option<Map<Seq<u8>, Seq<u8>>>,
    es: Seq<PersistEvent<C>>,
) -> Option<Map<Seq<u8>, Seq<u8>>> {
    match stored {
        Some(m) => Some(stored_after_events(m, es)),
        None => None,
    }
}

/// Saves `a` then saves `b` store what saves `a + b` store.
pub proof fn lemma_stored_after_concat<C: SerializableCommand>(
    stored: Map<Seq<u8>, Seq<u8>>,
    a: Seq<PersistEvent<C>>,
    b: Seq<PersistEvent<C>>,
)
    ensures
        stored_after_events(stored, a + b) == stored_after_events(stored_after_events(stored, a), b),
    decreases b.len(),
{
    if b.len() == 0 {
        assert(a + b =~= a);
    } else {
        lemma_stored_after_concat(stored, a, b.drop_last());
        assert((a + b).drop_last() =~= a + b.drop_last());
        assert((a + b).last() == b.last());
    }
}

/// Saving at most one more event.
pub proof fn lemma_stored_after_one<C: SerializableCommand>(
    stored: Map<Seq<u8>, Seq<u8>>,
    a: Seq<PersistEvent<C>>,
    e: Option<PersistEvent<C>>,
)
    ensures
        stored_after_events(stored, a + seq_of_opt(e)) == stored_after_event(stored_after_events(stored, a), e),
{
    match e {
        Some(x) => {
            assert((a + seq![x]).drop_last() =~= a);
            assert((a + seq![x]).last() == x);
        },
        None => {
            assert(a + Seq::<PersistEvent<C>>::empty() =~= a);
        },
    }
}

/// The instance that a message for `iid` is handled by: the existing one, or a new one.
pub open spec fn instance_for<C>(v: NodeView<C>, iid: u64) -> InstanceView<C> {
    if v.instances.contains_key(iid) {
        v.instances[iid]
    } else {
        fresh_instance(v.id, quorum_of(v.total_nodes), v.total_nodes, iid)
    }
}

/// The leader's ballot after an instance answered `first` to `kind`: a round won by
/// this node's proposer makes it the leader; promising a higher ballot, or being
/// refused an Accept with a higher ballot, ends the leadership.
pub open spec fn leader_after<C>(v: NodeView<C>, kind: MessageKind<C>, first: Option<MessageKind<C>>) -> Option<
    Ballot,
> {
    let lb1 = match first {
        Some(MessageKind::LearnMsg(l)) => if kind is LearnMsg {
            v.leader_ballot
        } else {
            Some(l.ballot)
        },
        _ => v.leader_ballot,
    };
    let lb2 = match first {
        Some(MessageKind::PromiseMsg(p)) => match lb1 {
            Some(lb) => if p.ballot > lb {
                None
            } else {
                lb1
            },
            None => lb1,
        },
        _ => lb1,
    };
    match kind {
        MessageKind::NackAcceptMsg(n) => match lb2 {
            Some(lb) => if n.max_ballot > lb {
                None
            } else {
                lb2
            },
            None => lb2,
        },
        _ => lb2,
    }
}

/// The leader this node knows after an instance answered `first` to `kind`.
pub open spec fn known_leader_after<C>(v: NodeView<C>, kind: MessageKind<C>, first: Option<MessageKind<C>>) -> Option<
    u32,
> {
    let kl1 = match first {
        Some(MessageKind::LearnMsg(_)) => if kind is LearnMsg {
            v.known_leader_id
        } else {
            None
        },
        _ => v.known_leader_id,
    };
    match kind {
        MessageKind::LearnMsg(l) => if l.sender != v.id {
            Some(l.sender)
        } else {
            kl1
        },
        _ => kl1,
    }
}

/// The node's state and messages after it handled a protocol message of instance `iid`.
pub open spec fn deliver_step<C>(v: NodeView<C>, iid: u64, kind: MessageKind<C>) -> (NodeView<C>, Seq<
    Message<C>,
>) {
    let inst = instance_for(v, iid);
    let first = instance_step(inst, kind).1;
    let (inst2, responses, events) = cascade(inst, kind);
    (
        NodeView {
            instances: v.instances.insert(iid, inst2),
            next_instance_id: if iid >= v.next_instance_id {
                (iid + 1) as u64
            } else {
                v.next_instance_id
            },
            leader_ballot: leader_after(v, kind, first),
            known_leader_id: known_leader_after(v, kind, first),
            saved: saved_after(v.saved, events),
            ..v
        },
        wrap_all(v.id, iid, responses),
    )
}

/// The node's state, its messages and the ticket of a proposal of `cmd`.
pub open spec fn propose_step<C>(v: NodeView<C>, cmd: C) -> (NodeView<C>, Seq<Message<C>>, ProposalTicket) {
    if v.leader_ballot is None && v.known_leader_id is Some {
        let fid = v.next_forward_id;
        (
            NodeView {
                next_forward_id: (fid + 1) as u64,
                forwarded: v.forwarded.insert(fid),
                ..v
            },
            seq![
                Message {
                    sender_id: v.id,
                    paxos_instance: 0,
                    msg: MessageKind::RequestCommandToLeader { cmd, forward_id: fid },
                },
            ],
            ProposalTicket::Forwarded(fid),
        )
    } else {
        let iid = v.next_instance_id;
        let inst0 = fresh_instance::<C>(v.id, quorum_of(v.total_nodes), v.total_nodes, iid);
        let (p1, first) = new_prepare_step(inst0.proposer, cmd);
        let inst1 = InstanceView { proposer: p1, ..inst0 };
        let (inst2, rs, es) = cascade(inst1, first);
        (
            NodeView {
                next_instance_id: (iid + 1) as u64,
                instances: v.instances.insert(iid, inst2),
                pending: v.pending.insert(iid, ProposalTicket::Local(iid)),
                saved: saved_after(v.saved, es),
                ..v
            },
            wrap_all(v.id, iid, seq![first] + rs),
            ProposalTicket::Local(iid),
        )
    }
}

/// The node's state and the committed command of instance `id`, with the ticket of
/// the local proposal waiting for it, once the instance has learned a command.
pub open spec fn commit_step<C>(v: NodeView<C>, id: u64) -> (NodeView<C>, Option<(C, Option<ProposalTicket>)>) {
    if v.instances.contains_key(id) && v.instances[id].learner.value is Some {
        (
            NodeView { pending: v.pending.remove(id), ..v },
            Some(
                (
                    v.instances[id].learner.value.unwrap(),
                    if v.pending.contains_key(id) {
                        Some(v.pending[id])
                    } else {
                        None
                    },
                ),
            ),
        )
    } else {
        (v, None)
    }
}

/// The node's state and messages after it handled a message.
pub open spec fn handle_step<C>(v: NodeView<C>, msg: Message<C>) -> (NodeView<C>, Seq<Message<C>>) {
    match msg.msg {
        MessageKind::RequestCommandToLeader { cmd, forward_id } => {
            if v.leader_ballot is Some {
                let (v1, msgs, _) = propose_step(v, cmd);
                let iid = v.next_instance_id;
                (
                    NodeView {
                        forwarded_instances: v1.forwarded_instances.insert(
                            iid,
                            (msg.sender_id, forward_id),
                        ),
                        ..v1
                    },
                    msgs.push(
                        Message {
                            sender_id: v.id,
                            paxos_instance: iid,
                            msg: MessageKind::ForwardAck { forward_id, instance_id: iid },
                        },
                    ),
                )
            } else {
                (v, Seq::empty())
            }
        },
        MessageKind::ForwardAck { forward_id, instance_id } => {
            if v.forwarded.contains(forward_id) {
                (
                    NodeView {
                        forwarded: v.forwarded.remove(forward_id),
                        pending: v.pending.insert(instance_id, ProposalTicket::Forwarded(forward_id)),
                        ..v
                    },
                    Seq::empty(),
                )
            } else {
                (v, Seq::empty())
            }
        },
        _ => deliver_step(v, msg.paxos_instance, msg.msg),
    }
}

/// The saves that a proposal of `cmd` requests: none when it is forwarded, else
/// those of the new instance's cascade.
pub open spec fn propose_events<C>(v: NodeView<C>, cmd: C) -> Seq<PersistEvent<C>> {
    if v.leader_ballot is None && v.known_leader_id is Some {
        Seq::empty()
    } else {
        let iid = v.next_instance_id;
        let inst0 = fresh_instance::<C>(v.id, quorum_of(v.total_nodes), v.total_nodes, iid);
        let (p1, first) = new_prepare_step(inst0.proposer, cmd);
        cascade(InstanceView { proposer: p1, ..inst0 }, first).2
    }
}

/// The saves that handling `msg` requests.
pub open spec fn handle_events<C>(v: NodeView<C>, msg: Message<C>) -> Seq<PersistEvent<C>> {
    match msg.msg {
        MessageKind::RequestCommandToLeader { cmd, .. } => if v.leader_ballot is Some {
            propose_events(v, cmd)
        } else {
            Seq::empty()
        },
        MessageKind::ForwardAck { .. } => Seq::empty(),
        _ => cascade(instance_for(v, msg.paxos_instance), msg.msg).2,
    }
}

/// A step that failed in storage: it requested saves `es`, and the saves recorded
/// from `before` to `after` are a non-empty first part of them, the last of which
/// is the one that failed.
pub open spec fn failed_saves<C>(
    before: Option<Seq<PersistEvent<C>>>,
    after: Option<Seq<PersistEvent<C>>>,
    es: Seq<PersistEvent<C>>,
) -> bool {
    exists|k: int| 1 <= k <= es.len() && after == saved_after(before, #[trigger] es.subrange(0, k))
}

/// A node starts to lead only when its own proposer wins a round: if handling a
/// protocol message makes a node that did not lead a leader, the message was an
/// acknowledgement of its Accept, its instance answered it with a Learn, and the
/// node now leads with the ballot of that Learn.
pub proof fn lemma_leadership_is_won<C>(v: NodeView<C>, iid: u64, kind: MessageKind<C>)
    requires
        v.leader_ballot is None,
        deliver_step(v, iid, kind).0.leader_ballot is Some,
    ensures
        kind is AckAcceptMsg,
        instance_step(instance_for(v, iid), kind).1 matches Some(MessageKind::LearnMsg(l))
            && deliver_step(v, iid, kind).0.leader_ballot == Some(l.ballot),
{
}

/// A leader stops leading when its node promises a ballot higher than the one it
/// leads with, or when an acceptor refuses its Accept reporting a higher ballot.
pub proof fn lemma_leadership_is_lost<C>(v: NodeView<C>, iid: u64, kind: MessageKind<C>)
    requires
        v.leader_ballot is Some,
        (instance_step(instance_for(v, iid), kind).1 matches Some(MessageKind::PromiseMsg(p))
            && p.ballot > v.leader_ballot.unwrap()) || (kind matches MessageKind::NackAcceptMsg(n)
            && n.max_ballot > v.leader_ballot.unwrap()),
    ensures
        deliver_step(v, iid, kind).0.leader_ballot is None,
{
}

/// Every forwarded proposal gets a fresh ticket: a forwarded proposal takes the
/// node's next forward identifier and moves past it, and no step of a node moves
/// back; so two proposals that a node forwards, one after the other, never share
/// a ticket.
pub proof fn lemma_forward_tickets_fresh<C>(v: NodeView<C>, c1: C, c2: C)
    requires
        v.leader_ballot is None && v.known_leader_id is Some,
        v.next_forward_id < u64::MAX - 1,
    ensures
        propose_step(v, c1).2 == ProposalTicket::Forwarded(v.next_forward_id),
        propose_step(v, c1).0.next_forward_id > v.next_forward_id,
        propose_step(propose_step(v, c1).0, c2).2 != propose_step(v, c1).2,
{
}

/// No step of a node lowers its next forward identifier.
pub proof fn lemma_forward_ids_never_drop<C>(v: NodeView<C>, cmd: C, m: Message<C>, id: u64)
    ensures
        propose_step(v, cmd).0.next_forward_id >= v.next_forward_id || v.next_forward_id == u64::MAX,
        handle_step(v, m).0.next_forward_id >= v.next_forward_id || v.next_forward_id == u64::MAX,
        commit_step(v, id).0.next_forward_id == v.next_forward_id,
{
}

/// Every proposal that a node places itself starts with Phase 1 in its new
/// instance, also when the node leads: an Accept without Phase 1 could overwrite a
/// command that a quorum already chose in that instance at a lower ballot. A node
/// that does not lead and knows another leader forwards the command to it.
pub proof fn lemma_proposal_paths<C>(v: NodeView<C>, cmd: C)
    ensures
        !(v.leader_ballot is None && v.known_leader_id is Some) ==> propose_step(v, cmd).1[0].msg
            is PrepareMsg,
        v.leader_ballot is None && v.known_leader_id is Some ==> propose_step(v, cmd).1 == seq![
            Message {
                sender_id: v.id,
                paxos_instance: 0,
                msg: MessageKind::RequestCommandToLeader { cmd, forward_id: v.next_forward_id },
            },
        ],
{
}

impl<C> NodeView<C> {
    /// What every node keeps: a cluster of two or more nodes whose ballots fit in
    /// 32 bits, and instances that are well formed and belong to this node.
    pub open spec fn well_formed(&self) -> bool {
        &&& self.total_nodes >= 2
        &&& self.id + self.total_nodes <= u32::MAX
        &&& forall|iid: u64| #[trigger]
            self.instances.contains_key(iid) ==> {
                let inst = self.instances[iid];
                &&& inst.well_formed()
                &&& inst.ballots_fit()
                &&& inst.instance_id == iid
                &&& inst.acceptor.my_id == self.id
                &&& inst.proposer.total_nodes == self.total_nodes
                &&& inst.proposer.quorum_size == quorum_of(self.total_nodes)
                &&& inst.learner.quorum_size == quorum_of(self.total_nodes)
            }
    }
}

/// A Paxos node is a process that takes part in the Multi-Paxos protocol; it is the
/// main entry to the algorithm.
pub struct MultiPaxosNode<S: StateMachine> {
    config: SmrConfig,
    paxos_instances: HashMap<u64, PaxosInstance<S::Command>>,
    pending: HashMap<u64, ProposalTicket>,
    next_instance_id: u64,
    id: u32,
    storage: Option<PaxosStorage<S::Command>>,
    leader_ballot: Option<Ballot>,
    known_leader_id: Option<u32>,
    forwarded: HashSet<u64>,
    next_forward_id: u64,
    forwarded_instances: HashMap<u64, (u32, u64)>,
}

impl<S: StateMachine> View for MultiPaxosNode<S> {
    type V = NodeView<S::Command>;

    closed spec fn view(&self) -> NodeView<S::Command> {
        NodeView {
            id: self.id,
            total_nodes: self.config.total_nodes_spec(),
            other_nodes: self.config.other_nodes_spec(),
            bind_address: self.config.bind_address_spec(),
            instances: self.paxos_instances@.map_values(|p: PaxosInstance<S::Command>| p@),
            pending: self.pending@,
            next_instance_id: self.next_instance_id,
            leader_ballot: self.leader_ballot,
            known_leader_id: self.known_leader_id,
            forwarded: self.forwarded@,
            next_forward_id: self.next_forward_id,
            forwarded_instances: self.forwarded_instances@,
            saved: storage_saved(self.storage),
        }
    }
}

/// Feeds `inst` the message `initial`, then its own answers; appends every answer
/// to `outgoing` as a message of this node for instance `iid`.
fn run_cascade<C: CommandTrait + SerializableCommand>(
    inst: &mut PaxosInstance<C>,
    storage: &mut Option<PaxosStorage<C>>,
    id: u32,
    iid: u64,
    initial: MessageKind<C>,
    outgoing: &mut Vec<Message<C>>,
) -> (r: crate::Result<()>)
    requires
        old(inst).well_formed(),
        old(inst)@.well_formed(),
        old(inst)@.ballots_fit(),
    ensures
        final(inst).well_formed(),
        final(inst)@.well_formed(),
        final(inst)@.ballots_fit(),
        final(inst)@.instance_id == old(inst)@.instance_id,
        final(inst)@.acceptor.my_id == old(inst)@.acceptor.my_id,
        final(inst)@.proposer.total_nodes == old(inst)@.proposer.total_nodes,
        final(inst)@.proposer.quorum_size == old(inst)@.proposer.quorum_size,
        final(inst)@.learner.quorum_size == old(inst)@.learner.quorum_size,
        *old(storage) is None ==> r is Ok,
        *final(storage) is Some == *old(storage) is Some,
        r is Ok ==> final(inst)@ == cascade(old(inst)@, initial).0,
        r is Ok ==> final(outgoing)@ == old(outgoing)@ + wrap_all(id, iid, cascade(old(inst)@, initial).1),
        r is Ok ==> storage_saved(*final(storage)) == saved_after(
            storage_saved(*old(storage)),
            cascade(old(inst)@, initial).2,
        ),
        r is Err ==> failed_saves(storage_saved(*old(storage)), storage_saved(*final(storage)), cascade(old(inst)@, initial).2),
        r is Ok ==> storage_stored(*final(storage)) == stored_after_saves(
            storage_stored(*old(storage)),
            cascade(old(inst)@, initial).2,
        ),
{
    let ghost v0 = inst@;
    assert(v0 == old(inst)@);
    let ghost out0 = outgoing@;
    let ghost acc_msgs: Seq<MessageKind<C>> = Seq::empty();
    let ghost acc_events: Seq<PersistEvent<C>> = Seq::empty();
    let ghost saved0 = match storage_saved(*storage) {
        Some(s) => s,
        None => Seq::empty(),
    };
    let mut msg = initial;
    loop
        invariant
            inst.well_formed(),
            inst@.well_formed(),
            inst@.ballots_fit(),
            inst@.instance_id == v0.instance_id,
            inst@.acceptor.my_id == v0.acceptor.my_id,
            inst@.proposer.total_nodes == v0.proposer.total_nodes,
            inst@.proposer.quorum_size == v0.proposer.quorum_size,
            inst@.learner.quorum_size == v0.learner.quorum_size,
            v0.well_formed(),
            v0.ballots_fit(),
            v0 == old(inst)@,
            out0 == old(outgoing)@,
            *storage is Some == *old(storage) is Some,
            cascade(v0, initial).0 == cascade(inst@, msg).0,
            cascade(v0, initial).1 == acc_msgs + cascade(inst@, msg).1,
            cascade(v0, initial).2 == acc_events + cascade(inst@, msg).2,
            outgoing@ == out0 + wrap_all(id, iid, acc_msgs),
            storage_saved(*storage) is Some ==> storage_saved(*storage) == Some(saved0 + acc_events),
            storage_saved(*old(storage)) is Some ==> storage_saved(*old(storage)) == Some(saved0),
            storage_stored(*storage) == stored_after_saves(storage_stored(*old(storage)), acc_events),
        decreases 8 - message_rank(msg, inst@.acceptor.my_id),
    {
        let ghost vi = inst@;
        let ghost stored_i = storage_stored(*storage);
        proof {
            synod::lemma_answer_rank_increases(vi, msg);
            synod::lemma_instance_step_well_formed(vi, msg);
        }
        let ghost step = instance_step(vi, msg);
        let response = match storage {
            Some(s) => inst.handle_message(msg.duplicate(), Some(s)),
            None => inst.handle_message(msg.duplicate(), None),
        };
        let ghost ev = seq_of_opt(step.2);
        assert(inst@ == step.0);
        assert(inst@.instance_id == v0.instance_id);
        let response = match response {
            Ok(r) => r,
            Err(e) => {
                proof {
                    let all = cascade(v0, initial).2;
                    let k: int = acc_events.len() as int + 1;
                    assert(step.2 is Some);
                    assert(cascade(vi, msg).2[0] == step.2.unwrap());
                    assert(all.subrange(0, k) =~= acc_events + ev);
                    assert(storage_saved(*storage) == saved_after(storage_saved(*old(storage)), all.subrange(0, k)));
                }
                return Err(e);
            },
        };
        match response {
            Some(resp) => {
                outgoing.push(Message::new(id, resp.duplicate(), iid));
                proof {
                    assert(wrap_all(id, iid, acc_msgs.push(resp)) =~= wrap_all(id, iid, acc_msgs).push(
                        Message { sender_id: id, paxos_instance: iid, msg: resp },
                    ));
                    assert(cascade(vi, msg).1 == seq![resp] + cascade(inst@, resp).1);
                    assert(acc_msgs + cascade(vi, msg).1 =~= acc_msgs.push(resp) + cascade(inst@, resp).1);
                    assert(acc_events + cascade(vi, msg).2 =~= (acc_events + ev) + cascade(inst@, resp).2);
                    match storage_stored(*old(storage)) {
                        Some(m0) => {
                            lemma_stored_after_one(m0, acc_events, step.2);
                        },
                        None => {},
                    }
                    acc_msgs = acc_msgs.push(resp);
                    acc_events = acc_events + ev;
                }
                msg = resp;
            },
            None => {
                proof {
                    assert(cascade(vi, msg).1 == Seq::<MessageKind<C>>::empty());
                    assert(acc_msgs + cascade(vi, msg).1 =~= acc_msgs);
                    assert(acc_events + cascade(vi, msg).2 =~= acc_events + ev);
                    match storage_stored(*old(storage)) {
                        Some(m0) => {
                            lemma_stored_after_one(m0, acc_events, step.2);
                        },
                        None => {},
                    }
                }
                return Ok(());
            },
        }
    }
}

impl<S: StateMachine> MultiPaxosNode<S> {
    /// The internal state is consistent with the node's view, and the view is well
    /// formed.
    pub closed spec fn well_formed(&self) -> bool {
        &&& self@.well_formed()
        &&& self.config.node_id_spec() == self.id
        &&& forall|iid: u64| #[trigger] self.paxos_instances@.contains_key(iid) ==> self.paxos_instances@[iid].well_formed()
    }

    pub fn new(config: SmrConfig) -> (r: Self)
        requires
            config.total_nodes_spec() >= 2,
            config.node_id_spec() + config.total_nodes_spec() <= u32::MAX,
        ensures
            r.well_formed(),
            r@.id == config.node_id_spec(),
            r@.other_nodes == config.other_nodes_spec(),
            r.stored() is None,
            r@.bind_address == config.bind_address_spec(),
            r@.total_nodes == config.total_nodes_spec(),
            r@.instances == Map::<u64, InstanceView<S::Command>>::empty(),
            r@.pending == Map::<u64, ProposalTicket>::empty(),
            r@.next_instance_id == 0,
            r@.leader_ballot is None,
            r@.known_leader_id is None,
            r@.forwarded == Set::<u64>::empty(),
            r@.next_forward_id == 0,
            r@.forwarded_instances == Map::<u64, (u32, u64)>::empty(),
            r@.saved is None,
    {
        let id = config.node_id();
        let r = Self {
            id,
            config,
            paxos_instances: HashMap::new(),
            pending: HashMap::new(),
            next_instance_id: 0,
            storage: None,
            leader_ballot: None,
            known_leader_id: None,
            forwarded: HashSet::new(),
            next_forward_id: 0,
            forwarded_instances: HashMap::new(),
        };
        assert(r@.instances =~= Map::<u64, InstanceView<S::Command>>::empty());
        r
    }

    pub fn id(&self) -> (r: u32)
        ensures
            r == self@.id,
    {
        self.id
    }

    /// Whether this node is the current leader.
    pub fn is_leader(&self) -> (r: bool)
        ensures
            r == self@.leader_ballot is Some,
    {
        self.leader_ballot.is_some()
    }

    /// The ballot of the last round this node won, while it leads.
    pub fn leader_ballot(&self) -> (r: Option<Ballot>)
        ensures
            r == self@.leader_ballot,
    {
        self.leader_ballot
    }

    /// Whether a proposal can be taken without exhausting an identifier counter.
    pub fn can_propose(&self) -> (r: bool)
        ensures
            r == (self@.next_instance_id < u64::MAX && self@.next_forward_id < u64::MAX),
    {
        self.next_instance_id < u64::MAX && self.next_forward_id < u64::MAX
    }

    /// `inst` can stand in this node's map under key `k`.
    pub closed spec fn fits(&self, inst: PaxosInstance<S::Command>, k: u64) -> bool {
        &&& inst.well_formed()
        &&& inst@.well_formed()
        &&& inst@.ballots_fit()
        &&& inst@.instance_id == k
        &&& inst@.acceptor.my_id == self.id
        &&& inst@.proposer.total_nodes == self.config.total_nodes_spec()
        &&& inst@.proposer.quorum_size == quorum_of(self.config.total_nodes_spec())
        &&& inst@.learner.quorum_size == quorum_of(self.config.total_nodes_spec())
    }

    /// The map that the node's storage backend holds, when it has a storage.
    pub closed spec fn stored(&self) -> Option<Map<Seq<u8>, Seq<u8>>> {
        storage_stored(self.storage)
    }

    /// The node's fields other than its instances are consistent.
    pub closed spec fn frame_ok(&self) -> bool {
        &&& self.config.total_nodes_spec() >= 2
        &&& self.id + self.config.total_nodes_spec() <= u32::MAX
        &&& self.config.node_id_spec() == self.id
    }

    /// Takes the instance for `iid` out of the map, or makes a new one.
    fn take_instance(&mut self, iid: u64) -> (inst: PaxosInstance<S::Command>)
        requires
            old(self).well_formed(),
        ensures
            inst@ == instance_for(old(self)@, iid),
            final(self).fits(inst, iid),
            final(self).frame_ok(),
            final(self).paxos_instances@ == old(self).paxos_instances@.remove(iid),
            forall|k: u64| #[trigger] final(self).paxos_instances@.contains_key(k) ==> final(self).fits(
                final(self).paxos_instances@[k],
                k,
            ),
            final(self)@ == (NodeView { instances: old(self)@.instances.remove(iid), ..old(self)@ }),
            final(self).stored() == old(self).stored(),
    {
        let ghost v0 = self@;
        let ghost map0 = self.paxos_instances@;
        let quorum = self.config.total_nodes() / 2 + 1;
        let total = self.config.total_nodes();
        let removed = self.paxos_instances.remove(&iid);
        let instance = match removed {
            Some(inst) => inst,
            None => PaxosInstance::new(self.id, quorum, total, iid),
        };
        proof {
            let map1 = self.paxos_instances@;
            assert(map1 == map0.remove(iid));
            assert forall|k: u64| #[trigger] map1.contains_key(k) implies self.fits(map1[k], k) by {
                assert(map0.contains_key(k));
                assert(v0.instances.contains_key(k));
                assert(v0.instances[k] == map0[k]@);
            }
            if map0.contains_key(iid) {
                assert(v0.instances.contains_key(iid));
                assert(instance@ == v0.instances[iid]);
            }
            assert(self@.instances =~= v0.instances.remove(iid));
        }
        instance
    }

    /// Puts an instance back under `iid`.
    fn put_instance(&mut self, iid: u64, inst: PaxosInstance<S::Command>)
        requires
            old(self).fits(inst, iid),
            old(self).frame_ok(),
            forall|k: u64| #[trigger] old(self).paxos_instances@.contains_key(k) ==> old(self).fits(
                old(self).paxos_instances@[k],
                k,
            ),
        ensures
            final(self).well_formed(),
            final(self)@ == (NodeView { instances: old(self)@.instances.insert(iid, inst@), ..old(self)@ }),
            final(self).stored() == old(self).stored(),
    {
        let ghost map1 = self.paxos_instances@;
        let ghost v1 = self@;
        self.paxos_instances.insert(iid, inst);
        proof {
            assert(self.paxos_instances@ == map1.insert(iid, inst));
            assert(self@.instances =~= v1.instances.insert(iid, inst@));
            assert forall|k: u64| #[trigger] self@.instances.contains_key(k) implies {
                let i = self@.instances[k];
                &&& i.well_formed()
                &&& i.ballots_fit()
                &&& i.instance_id == k
                &&& i.acceptor.my_id == self@.id
                &&& i.proposer.total_nodes == self@.total_nodes
                &&& i.proposer.quorum_size == quorum_of(self@.total_nodes)
                &&& i.learner.quorum_size == quorum_of(self@.total_nodes)
            } by {
                if k != iid {
                    assert(map1.contains_key(k));
                    assert(self.fits(map1[k], k));
                }
            }
        }
    }

    /// Updates the leadership after an instance answered `first` to `kind`.
    fn update_leadership(&mut self, kind: &MessageKind<S::Command>, first: &Option<MessageKind<S::Command>>)
        ensures
            final(self)@ == (NodeView {
                leader_ballot: leader_after(old(self)@, *kind, *first),
                known_leader_id: known_leader_after(old(self)@, *kind, *first),
                ..old(self)@
            }),
            final(self).config == old(self).config,
            final(self).id == old(self).id,
            final(self).paxos_instances == old(self).paxos_instances,
            final(self).stored() == old(self).stored(),
    {
        let is_incoming_learn = kind.is_learn();
        if let Some(resp) = first {
            if !is_incoming_learn {
                if let MessageKind::LearnMsg(learn) = resp {
                    self.leader_ballot = Some(learn.ballot);
                    self.known_leader_id = None;
                }
            }
            if let MessageKind::PromiseMsg(promise) = resp {
                if let Some(lb) = self.leader_ballot {
                    if promise.ballot > lb {
                        self.leader_ballot = None;
                    }
                }
            }
        }
        if let MessageKind::NackAcceptMsg(nack) = kind {
            if let Some(lb) = self.leader_ballot {
                if nack.max_ballot > lb {
                    self.leader_ballot = None;
                }
            }
        }
        if let MessageKind::LearnMsg(learn) = kind {
            if learn.sender != self.id {
                self.known_leader_id = Some(learn.sender);
            }
        }
    }

    /// Handles a protocol message of instance `iid` through its instance.
    #[verifier::spinoff_prover]
    fn deliver(&mut self, iid: u64, kind: MessageKind<S::Command>) -> (r: crate::Result<Vec<Message<S::Command>>>)
        requires
            old(self).well_formed(),
            iid < u64::MAX,
        ensures
            final(self).well_formed(),
            old(self)@.saved is None ==> r is Ok,
            r is Ok ==> (final(self)@, r.unwrap()@) == deliver_step(old(self)@, iid, kind),
            r is Err ==> failed_saves(old(self)@.saved, final(self)@.saved, cascade(instance_for(old(self)@, iid), kind).2),
            r is Ok ==> final(self).stored() == stored_after_saves(old(self).stored(), cascade(instance_for(old(self)@, iid), kind).2),
            final(self)@.id == old(self)@.id,
            final(self)@.total_nodes == old(self)@.total_nodes,
    {
        let ghost v0 = self@;
        if iid >= self.next_instance_id {
            self.next_instance_id = iid + 1;
        }
        let mut instance = self.take_instance(iid);
        let ghost inst0 = instance@;
        let ghost st0 = self.stored();
        proof {
            synod::lemma_instance_step_well_formed(inst0, kind);
        }
        let ghost step = instance_step(inst0, kind);
        let mut outgoing: Vec<Message<S::Command>> = Vec::new();
        let response = match &mut self.storage {
            Some(s) => instance.handle_message(kind.duplicate(), Some(s)),
            None => instance.handle_message(kind.duplicate(), None),
        };
        proof {
            if response is Ok {
                match st0 {
                    Some(m0) => {
                        lemma_stored_after_one(m0, Seq::<PersistEvent<S::Command>>::empty(), step.2);
                        assert(Seq::<PersistEvent<S::Command>>::empty() + seq_of_opt(step.2) =~= seq_of_opt(step.2));
                    },
                    None => {},
                }
                assert(self.stored() == stored_after_saves(st0, seq_of_opt(step.2)));
            }
        }
        assert(storage_saved(self.storage) == saved_after(v0.saved, seq_of_opt(step.2)));
        let response = match response {
            Ok(r) => r,
            Err(e) => {
                proof {
                    let es = cascade(inst0, kind).2;
                    assert(es.subrange(0, 1) =~= seq_of_opt(step.2));
                }
                self.put_instance(iid, instance);
                return Err(e);
            },
        };
        self.update_leadership(&kind, &response);
        let result = match response {
            Some(resp) => {
                let ghost inst1 = instance@;
                outgoing.push(Message::new(self.id, resp.duplicate(), iid));
                let res = run_cascade(&mut instance, &mut self.storage, self.id, iid, resp, &mut outgoing);
                proof {
                    let c = cascade(inst1, resp);
                    assert(cascade(inst0, kind) == (c.0, seq![resp] + c.1, seq_of_opt(step.2) + c.2));
                    if res is Err {
                        let e0 = seq_of_opt(step.2);
                        let k2 = choose|k: int| 1 <= k <= c.2.len() && storage_saved(self.storage) == saved_after(
                            saved_after(v0.saved, e0),
                            #[trigger] c.2.subrange(0, k),
                        );
                        let es = e0 + c.2;
                        assert(es.subrange(0, e0.len() + k2) =~= e0 + c.2.subrange(0, k2));
                        match v0.saved {
                            Some(sv) => {
                                assert(sv + e0 + c.2.subrange(0, k2) =~= sv + (e0 + c.2.subrange(0, k2)));
                            },
                            None => {},
                        }
                        assert(storage_saved(self.storage) == saved_after(v0.saved, es.subrange(0, e0.len() + k2)));
                    }
                    if res is Ok {
                        match st0 {
                            Some(m0) => {
                                lemma_stored_after_concat(m0, seq_of_opt(step.2), c.2);
                            },
                            None => {},
                        }
                        assert(wrap_all(self.id, iid, seq![resp] + c.1) =~= seq![
                            Message { sender_id: self.id, paxos_instance: iid, msg: resp },
                        ] + wrap_all(self.id, iid, c.1));
                        assert(outgoing@ =~= wrap_all(self.id, iid, cascade(inst0, kind).1));
                        match v0.saved {
                            Some(sv) => {
                                assert(sv + seq_of_opt(step.2) + c.2 =~= sv + (seq_of_opt(step.2) + c.2));
                            },
                            None => {},
                        }
                    }
                }
                res
            },
            None => {
                proof {
                    assert(cascade(inst0, kind) == (step.0, Seq::<MessageKind<S::Command>>::empty(), seq_of_opt(step.2)));
                    assert(outgoing@ =~= wrap_all(self.id, iid, Seq::<MessageKind<S::Command>>::empty()));
                }
                Ok(())
            },
        };
        self.put_instance(iid, instance);
        match result {
            Ok(()) => {
                proof {
                    assert(self@.instances =~= v0.instances.insert(iid, cascade(inst0, kind).0));
                }
                Ok(outgoing)
            },
            Err(e) => Err(e),
        }
    }
}

impl<S: StateMachine> MultiPaxosNode<S> {
    proof fn lemma_entries_fit(&self)
        requires
            self.well_formed(),
        ensures
            self.frame_ok(),
            forall|k: u64| #[trigger] self.paxos_instances@.contains_key(k) ==> self.fits(
                self.paxos_instances@[k],
                k,
            ),
    {
        assert forall|k: u64| #[trigger] self.paxos_instances@.contains_key(k) implies self.fits(
            self.paxos_instances@[k],
            k,
        ) by {
            assert(self@.instances.contains_key(k));
        }
    }

    /// Proposes `cmd`: forwards it to the known leader when this node does not lead;
    /// otherwise starts Phase 1 of the next instance.
    pub fn propose_command(&mut self, cmd: S::Command) -> (r: crate::Result<(Vec<Message<S::Command>>, ProposalTicket)>)
        requires
            old(self).well_formed(),
            old(self)@.next_instance_id < u64::MAX,
            old(self)@.next_forward_id < u64::MAX,
        ensures
            final(self).well_formed(),
            final(self)@.id == old(self)@.id,
            final(self)@.total_nodes == old(self)@.total_nodes,
            old(self)@.saved is None ==> r is Ok,
            r is Ok ==> (final(self)@, r.unwrap().0@, r.unwrap().1) == propose_step(old(self)@, cmd),
            r is Err ==> failed_saves(old(self)@.saved, final(self)@.saved, propose_events(old(self)@, cmd)),
            r is Ok ==> final(self).stored() == stored_after_saves(old(self).stored(), propose_events(old(self)@, cmd)),
            r matches Ok((_, ProposalTicket::Forwarded(fid))) ==> fid == old(self)@.next_forward_id
                && final(self)@.next_forward_id > fid,
            r is Ok ==> final(self)@.next_forward_id >= old(self)@.next_forward_id,
    {
        let ghost v0 = self@;
        if self.leader_ballot.is_none() && self.known_leader_id.is_some() {
            let fid = self.next_forward_id;
            self.next_forward_id = fid + 1;
            let msg = Message::new(self.id, MessageKind::RequestCommandToLeader { cmd, forward_id: fid }, 0);
            self.forwarded.insert(fid);
            let mut msgs: Vec<Message<S::Command>> = Vec::new();
            msgs.push(msg);
            proof {
                assert(msgs@ =~= propose_step(v0, cmd).1);
                assert(self@.instances =~= v0.instances);
            }
            return Ok((msgs, ProposalTicket::Forwarded(fid)));
        }
        let quorum = self.config.total_nodes() / 2 + 1;
        let total = self.config.total_nodes();
        let iid = self.next_instance_id;
        self.next_instance_id = iid + 1;
        let mut instance = PaxosInstance::new(self.id, quorum, total, iid);
        let first = instance.start_prepare(cmd);
        let ghost inst1 = instance@;
        let mut outgoing: Vec<Message<S::Command>> = Vec::new();
        outgoing.push(Message::new(self.id, first.duplicate(), iid));
        proof {
            self.lemma_entries_fit();
        }
        let res = run_cascade(&mut instance, &mut self.storage, self.id, iid, first, &mut outgoing);
        self.put_instance(iid, instance);
        match res {
            Ok(()) => {},
            Err(e) => return Err(e),
        }
        self.pending.insert(iid, ProposalTicket::Local(iid));
        proof {
            let c = cascade(inst1, first);
            assert(wrap_all(self.id, iid, seq![first] + c.1) =~= seq![
                Message { sender_id: self.id, paxos_instance: iid, msg: first },
            ] + wrap_all(self.id, iid, c.1));
            assert(outgoing@ =~= wrap_all(self.id, iid, seq![first] + c.1));
            assert(self@.instances =~= v0.instances.insert(iid, c.0));
        }
        Ok((outgoing, ProposalTicket::Local(iid)))
    }

    /// Handles a message from the network: a proposal forwarded to this node (taken
    /// when it leads, dropped otherwise), the leader's acknowledgement of a forwarded
    /// proposal, or a protocol message for an instance.
    pub fn handle_network_message(&mut self, paxos_msg: Message<S::Command>) -> (r: crate::Result<Vec<Message<S::Command>>>)
        requires
            old(self).well_formed(),
            old(self)@.next_instance_id < u64::MAX,
            old(self)@.next_forward_id < u64::MAX,
            paxos_msg.paxos_instance < u64::MAX,
        ensures
            final(self).well_formed(),
            final(self)@.id == old(self)@.id,
            final(self)@.total_nodes == old(self)@.total_nodes,
            old(self)@.saved is None ==> r is Ok,
            r is Ok ==> (final(self)@, r.unwrap()@) == handle_step(old(self)@, paxos_msg),
            r is Err ==> failed_saves(old(self)@.saved, final(self)@.saved, handle_events(old(self)@, paxos_msg)),
            r is Ok ==> final(self).stored() == stored_after_saves(old(self).stored(), handle_events(old(self)@, paxos_msg)),
    {
        let ghost v0 = self@;
        let sender = paxos_msg.sender_id;
        let iid = paxos_msg.paxos_instance;
        match paxos_msg.msg {
            MessageKind::RequestCommandToLeader { cmd, forward_id } => {
                if self.is_leader() {
                    let (mut msgs, ticket) = self.propose_command(cmd)?;
                    let ghost v1 = self@;
                    let instance_id = self.next_instance_id - 1;
                    self.forwarded_instances.insert(instance_id, (sender, forward_id));
                    let ghost msgs1 = msgs@;
                    msgs.push(
                        Message::new(
                            self.id,
                            MessageKind::ForwardAck { forward_id, instance_id },
                            instance_id,
                        ),
                    );
                    proof {
                        assert((v1, msgs1, ticket) == propose_step(v0, cmd));
                        assert(instance_id == v0.next_instance_id);
                        assert(self@ == (NodeView {
                            forwarded_instances: v1.forwarded_instances.insert(instance_id, (sender, forward_id)),
                            ..v1
                        }));
                        assert(msgs@ == msgs1.push(Message {
                            sender_id: v0.id,
                            paxos_instance: instance_id,
                            msg: MessageKind::ForwardAck { forward_id, instance_id },
                        }));
                        assert((self@, msgs@) == handle_step(v0, paxos_msg));
                    }
                    Ok(msgs)
                } else {
                    Ok(Vec::new())
                }
            },
            MessageKind::ForwardAck { forward_id, instance_id } => {
                if self.forwarded.remove(&forward_id) {
                    self.pending.insert(instance_id, ProposalTicket::Forwarded(forward_id));
                } else {
                    assert(self@.forwarded =~= v0.forwarded);
                }
                proof {
                    assert(self@.instances == v0.instances);
                    assert(self@ == handle_step(v0, paxos_msg).0);
                }
                Ok(Vec::new())
            },
            other => self.deliver(iid, other),
        }
    }

    /// The command committed at instance `id`, once learned, with the ticket of the
    /// local proposal waiting for it (which is then forgotten).
    pub fn commit(&mut self, id: u64) -> (r: Option<(S::Command, Option<ProposalTicket>)>)
        requires
            old(self).well_formed(),
        ensures
            final(self).well_formed(),
            (final(self)@, r) == commit_step(old(self)@, id),
            final(self).stored() == old(self).stored(),
    {
        let ghost v0 = self@;
        let command = match self.paxos_instances.get(&id) {
            Some(instance) => instance.get_value(),
            None => None,
        };
        match command {
            Some(cmd) => {
                let ticket = self.pending.remove(&id);
                proof {
                    assert(self@.instances =~= v0.instances);
                }
                Some((cmd, ticket))
            },
            None => None,
        }
    }

    /// Whether the node can take this message without exhausting an identifier
    /// counter.
    pub fn can_handle(&self, msg: &Message<S::Command>) -> (r: bool)
        ensures
            r == (self@.next_instance_id < u64::MAX && self@.next_forward_id < u64::MAX
                && msg.paxos_instance < u64::MAX),
    {
        self.next_instance_id < u64::MAX && self.next_forward_id < u64::MAX && msg.paxos_instance < u64::MAX
    }
}

/// The acceptor holds what the stored record `rec` of its instance says: the
/// promised ballot, and the accepted proposal with the command its bytes decode to.
pub open spec fn acceptor_restored<C: SerializableCommand>(
    a: Acceptor<C>,
    rec: Option<(Ballot, Option<(Ballot, Seq<u8>)>)>,
) -> bool {
    match rec {
        Some((b, None)) => a.max_ballot == b && a.max_accepted is None,
        Some((b, Some((ab, bytes)))) => {
            &&& a.max_ballot == b
            &&& a.max_accepted matches Some(p)
            &&& p.ballot == ab
            &&& C::decodes_to(bytes, Some(p.command))
        },
        None => false,
    }
}

/// A restart recovers what an acceptor saved: after a save of its acceptance of
/// `command` in `ballot` succeeded, the acceptor restored from the stored record of
/// that instance has promised `ballot` and accepted, in `ballot`, the command that
/// the saved bytes decode to.
pub proof fn lemma_recovery_after_accept<C: SerializableCommand>(
    stored: Map<Seq<u8>, Seq<u8>>,
    id: u64,
    ballot: Ballot,
    command: C,
    a: Acceptor<C>,
)
    requires
        ({
            let after = stored_after_event(stored, Some(PersistEvent::Accept { instance_id: id, ballot, command }));
            stored_record(after, id) matches Some(rec) && acceptor_restored(a, rec)
        }),
    ensures
        a.max_ballot == ballot,
        a.max_accepted matches Some(p) && p.ballot == ballot && C::decodes_to(command.encoding(), Some(p.command)),
        crate::commands::decoding_inverts_encoding::<C>() ==> a.max_accepted == Some(
            MaxAcceptedProposal { ballot, command },
        ),
{
    storage::lemma_load_after_accept(stored, id, ballot, command.encoding());
    let p = a.max_accepted.unwrap();
    assert(C::decodes_to(command.encoding(), Some(p.command)));
}

/// A restart recovers what an acceptor promised: after a save of its promise of
/// `ballot` succeeded, the acceptor restored from the stored record of that
/// instance has promised `ballot`.
pub proof fn lemma_recovery_after_promise<C: SerializableCommand>(
    stored: Map<Seq<u8>, Seq<u8>>,
    id: u64,
    ballot: Ballot,
    a: Acceptor<C>,
)
    requires
        ({
            let after = stored_after_event::<C>(stored, Some(PersistEvent::Promise { instance_id: id, ballot }));
            stored_record(after, id) matches Some(rec) && acceptor_restored(a, rec)
        }),
    ensures
        a.max_ballot == ballot,
{
    storage::lemma_load_after_promise(stored, id, ballot);
}

/// A restarted node keeps its promise: the acceptor restored after a save of its
/// promise of `ballot` refuses every Prepare with a ballot not above it.
pub proof fn lemma_restored_refuses_lower_prepare<C: SerializableCommand>(
    stored: Map<Seq<u8>, Seq<u8>>,
    id: u64,
    ballot: Ballot,
    a: Acceptor<C>,
    p: Prepare,
)
    requires
        ({
            let after = stored_after_event::<C>(stored, Some(PersistEvent::Promise { instance_id: id, ballot }));
            stored_record(after, id) matches Some(rec) && acceptor_restored(a, rec)
        }),
        p.ballot <= ballot,
    ensures
        synod::acceptor::prepare_step(a, p) == (
            a,
            MessageKind::<C>::NackPrepareMsg(NackPrepare { sender: a.my_id, max_ballot: ballot }),
        ),
{
    lemma_recovery_after_promise(stored, id, ballot, a);
}

/// A stored `String` command reads back with the same characters: the acceptor
/// state loaded after a save of an accepted string holds that ballot and a string
/// equal to the saved one.
pub proof fn lemma_load_gives_back_string(
    stored: Map<Seq<u8>, Seq<u8>>,
    id: u64,
    ballot: Ballot,
    command: String,
    st: AcceptorState<String>,
)
    requires
        state_of_record(
            stored_record(stored_after_event(stored, Some(PersistEvent::Accept { instance_id: id, ballot, command })), id).unwrap(),
            Some(st),
        ),
    ensures
        st.max_ballot == ballot,
        st.max_accepted matches Some(v) && v.ballot == ballot && v.command@ == command@,
{
    storage::lemma_load_after_accept(stored, id, ballot, command.encoding());
    let v = st.max_accepted.unwrap();
    crate::commands::lemma_string_round_trip(command, Some(v.command));
}

/// The acceptor of node `my_id` restored from a saved acceptor state.
pub open spec fn restored_acceptor<C>(my_id: u32, st: AcceptorState<C>) -> Acceptor<C> {
    Acceptor {
        my_id,
        max_ballot: st.max_ballot,
        max_accepted: match st.max_accepted {
            Some(v) => Some(MaxAcceptedProposal { ballot: v.ballot, command: v.command }),
            None => None,
        },
    }
}

impl<S: StateMachine> MultiPaxosNode<S> where S::Command: CommandTrait + SerializableCommand {
    /// A node that holds one instance for each of `states`, in increasing order of
    /// instance, with its acceptor restored from that state, and that persists its
    /// promises and acceptances in `storage`. Its next instance follows the last of
    /// them. An error when one of them is the last possible instance.
    pub fn from_acceptor_states(
        config: SmrConfig,
        storage: PaxosStorage<S::Command>,
        states: &Vec<(u64, AcceptorState<S::Command>)>,
    ) -> (r: crate::Result<Self>)
        requires
            config.total_nodes_spec() >= 2,
            config.node_id_spec() + config.total_nodes_spec() <= u32::MAX,
            forall|a: int, b: int| 0 <= a < b < states@.len() ==> states@[a].0 < states@[b].0,
        ensures
            r is Err <==> exists|j: int| 0 <= j < states@.len() && #[trigger] states@[j].0 == u64::MAX,
            r is Ok ==> r.unwrap().well_formed(),
            r is Ok ==> r.unwrap()@.well_formed(),
            r is Ok ==> r.unwrap()@.id == config.node_id_spec(),
            r is Ok ==> r.unwrap()@.other_nodes == config.other_nodes_spec(),
            r is Ok ==> r.unwrap()@.bind_address == config.bind_address_spec(),
            r is Ok ==> r.unwrap()@.total_nodes == config.total_nodes_spec(),
            r is Ok ==> r.unwrap()@.saved == Some(storage.saved()),
            r is Ok ==> r.unwrap().stored() == Some(storage.stored()),
            r is Ok ==> r.unwrap()@.pending == Map::<u64, ProposalTicket>::empty(),
            r is Ok ==> r.unwrap()@.leader_ballot is None,
            r is Ok ==> r.unwrap()@.known_leader_id is None,
            r is Ok ==> r.unwrap()@.forwarded == Set::<u64>::empty(),
            r is Ok ==> r.unwrap()@.next_forward_id == 0,
            r is Ok ==> r.unwrap()@.forwarded_instances == Map::<u64, (u32, u64)>::empty(),
            r is Ok ==> forall|k: u64| #[trigger] r.unwrap()@.instances.contains_key(k)
                <==> exists|j: int| 0 <= j < states@.len() && states@[j].0 == k,
            r is Ok ==> forall|j: int| 0 <= j < states@.len() ==> {
                let k = (#[trigger] states@[j]).0;
                let inst = r.unwrap()@.instances[k];
                let fresh = fresh_instance::<S::Command>(
                    config.node_id_spec(),
                    quorum_of(config.total_nodes_spec()),
                    config.total_nodes_spec(),
                    k,
                );
                &&& inst.proposer == fresh.proposer
                &&& inst.learner == fresh.learner
                &&& inst.acceptor == restored_acceptor(config.node_id_spec(), states@[j].1)
            },
            r is Ok ==> r.unwrap()@.next_instance_id == (if states@.len() == 0 {
                0
            } else {
                states@[states@.len() - 1].0 + 1
            }),
    {
        let id = config.node_id();
        let total = config.total_nodes();
        let quorum = total / 2 + 1;
        let ghost others = config.other_nodes_spec();
        let ghost bind = config.bind_address_spec();
        let ghost st = storage.stored();
        let mut node = Self::new(config);
        node.storage = Some(storage);
        assert(node.stored() == Some(st));
        let mut i: usize = 0;
        while i < states.len()
            invariant
                i <= states@.len(),
                node.stored() == Some(st),
                node.well_formed(),
                node@.id == id,
                node@.other_nodes == others,
                node@.bind_address == bind,
                node@.total_nodes == total,
                quorum == quorum_of(total),
                node@.saved == Some(storage.saved()),
                node@.pending == Map::<u64, ProposalTicket>::empty(),
                node@.leader_ballot is None,
                node@.known_leader_id is None,
                node@.forwarded == Set::<u64>::empty(),
                node@.next_forward_id == 0,
                node@.forwarded_instances == Map::<u64, (u32, u64)>::empty(),
                forall|a: int, b: int| 0 <= a < b < states@.len() ==> states@[a].0 < states@[b].0,
                forall|j: int| 0 <= j < i ==> #[trigger] states@[j].0 != u64::MAX,
                forall|k: u64| #[trigger] node@.instances.contains_key(k) <==> exists|j: int|
                    0 <= j < i && states@[j].0 == k,
                forall|k: u64| #[trigger] node@.instances.contains_key(k) ==> k < node@.next_instance_id,
                forall|j: int| 0 <= j < i ==> {
                    let k = (#[trigger] states@[j]).0;
                    let inst = node@.instances[k];
                    let fresh = fresh_instance::<S::Command>(id, quorum, total, k);
                    &&& inst.proposer == fresh.proposer
                    &&& inst.learner == fresh.learner
                    &&& inst.acceptor == restored_acceptor(id, states@[j].1)
                },
                i == 0 ==> node@.next_instance_id == 0,
                i > 0 ==> node@.next_instance_id == states@[i - 1].0 + 1,
            decreases states.len() - i,
        {
            let instance_id = states[i].0;
            if instance_id == u64::MAX {
                return Err(crate::errors::error_with_message("instance identifier out of range"));
            }
            let mut instance = PaxosInstance::new(id, quorum, total, instance_id);
            instance.restore_acceptor(&states[i].1);
            proof {
                node.lemma_entries_fit();
            }
            let ghost v1 = node@;
            node.put_instance_unchecked(instance_id, instance);
            if instance_id >= node.next_instance_id {
                node.next_instance_id = instance_id + 1;
            }
            proof {
                if i > 0 {
                    assert(states@[i - 1].0 < states@[i as int].0);
                }
                assert(node@.next_instance_id == instance_id + 1);
                assert forall|k: u64| #[trigger] node@.instances.contains_key(k) implies k < node@.next_instance_id by {
                    if k != instance_id {
                        assert(v1.instances.contains_key(k));
                        let j = choose|j: int| 0 <= j < i && states@[j].0 == k;
                        assert(states@[j].0 < states@[i as int].0);
                    }
                }
                assert forall|k: u64| #[trigger] node@.instances.contains_key(k) <==> exists|j: int|
                    0 <= j < i + 1 && states@[j].0 == k by {
                    if k == instance_id {
                        assert(states@[i as int].0 == k);
                    } else if exists|j: int| 0 <= j < i + 1 && states@[j].0 == k {
                        let j = choose|j: int| 0 <= j < i + 1 && states@[j].0 == k;
                        assert(j < i);
                        assert(v1.instances.contains_key(k));
                    }
                }
                assert forall|j: int| 0 <= j < i + 1 implies #[trigger] states@[j].0 != u64::MAX by {
                    if j < i {
                    }
                }
                assert forall|j: int| 0 <= j < i + 1 implies {
                    let k = (#[trigger] states@[j]).0;
                    let inst = node@.instances[k];
                    let fresh = fresh_instance::<S::Command>(id, quorum, total, k);
                    &&& inst.proposer == fresh.proposer
                    &&& inst.learner == fresh.learner
                    &&& inst.acceptor == restored_acceptor(id, states@[j].1)
                } by {
                    if j < i {
                        assert(states@[j].0 < states@[i as int].0);
                        assert(node@.instances[states@[j].0] == v1.instances[states@[j].0]);
                    }
                }
            }
            i = i + 1;
        }
        Ok(node)
    }

    /// A node that recovers the acceptor state of every instance that has a stored
    /// ballot, and persists its promises and acceptances in `storage` from then on.
    /// Its next instance follows the highest recovered one. An error when storage
    /// cannot be read back, or holds a ballot for the last possible instance.
    pub fn with_storage(config: SmrConfig, storage: PaxosStorage<S::Command>) -> (r: crate::Result<Self>)
        requires
            config.total_nodes_spec() >= 2,
            config.node_id_spec() + config.total_nodes_spec() <= u32::MAX,
        ensures
            r is Ok ==> r.unwrap().well_formed(),
            r is Ok ==> r.unwrap()@.well_formed(),
            r is Ok ==> r.unwrap()@.id == config.node_id_spec(),
            r is Ok ==> r.unwrap()@.other_nodes == config.other_nodes_spec(),
            r is Ok ==> r.unwrap()@.bind_address == config.bind_address_spec(),
            r is Ok ==> r.unwrap()@.total_nodes == config.total_nodes_spec(),
            r is Ok ==> r.unwrap()@.saved == Some(storage.saved()),
            r is Ok ==> r.unwrap().stored() == Some(storage.stored()),
            r is Ok ==> r.unwrap()@.pending == Map::<u64, ProposalTicket>::empty(),
            r is Ok ==> r.unwrap()@.leader_ballot is None,
            r is Ok ==> r.unwrap()@.known_leader_id is None,
            r is Ok ==> r.unwrap()@.forwarded == Set::<u64>::empty(),
            r is Ok ==> r.unwrap()@.next_forward_id == 0,
            r is Ok ==> r.unwrap()@.forwarded_instances == Map::<u64, (u32, u64)>::empty(),
            r is Ok ==> forall|k: u64| #[trigger] r.unwrap()@.instances.contains_key(k)
                <==> storage.stored().contains_key(promise_key_spec(k)),
            r is Ok ==> forall|k: u64| #[trigger] r.unwrap()@.instances.contains_key(k) ==> {
                let inst = r.unwrap()@.instances[k];
                let fresh = fresh_instance::<S::Command>(
                    config.node_id_spec(),
                    quorum_of(config.total_nodes_spec()),
                    config.total_nodes_spec(),
                    k,
                );
                &&& k < r.unwrap()@.next_instance_id
                &&& inst.proposer == fresh.proposer
                &&& inst.learner == fresh.learner
                &&& inst.acceptor.my_id == config.node_id_spec()
                &&& stored_record(storage.stored(), k) matches Some(rec)
                &&& acceptor_restored(inst.acceptor, rec)
            },
            r is Ok ==> r.unwrap()@.next_instance_id == 0 || r.unwrap()@.instances.contains_key(
                (r.unwrap()@.next_instance_id - 1) as u64,
            ),
            storage.stored().contains_key(promise_key_spec(u64::MAX)) ==> r is Err,
    {
        let ghost stored0 = storage.stored();
        let states = storage.load_all_acceptor_states()?;
        let r = Self::from_acceptor_states(config, storage, &states);
        proof {
            let id = config.node_id_spec();
            let total = config.total_nodes_spec();
            if stored0.contains_key(promise_key_spec(u64::MAX)) {
                let j = choose|j: int| 0 <= j < states@.len() && states@[j].0 == u64::MAX;
                assert(states@[j].0 == u64::MAX);
            }
            if r is Ok {
                let v = r.unwrap()@;
                assert forall|k: u64| #[trigger] v.instances.contains_key(k) <==> stored0.contains_key(promise_key_spec(k)) by {
                    if v.instances.contains_key(k) {
                        let j = choose|j: int| 0 <= j < states@.len() && states@[j].0 == k;
                        assert(state_of_record(stored_record(stored0, states@[j].0).unwrap(), Some(states@[j].1)));
                    }
                    if stored0.contains_key(promise_key_spec(k)) {
                        let j = choose|j: int| 0 <= j < states@.len() && states@[j].0 == k;
                        assert(v.instances.contains_key(states@[j].0));
                    }
                }
                assert forall|k: u64| #[trigger] v.instances.contains_key(k) implies {
                    let inst = v.instances[k];
                    let fresh = fresh_instance::<S::Command>(id, quorum_of(total), total, k);
                    &&& k < v.next_instance_id
                    &&& inst.proposer == fresh.proposer
                    &&& inst.learner == fresh.learner
                    &&& inst.acceptor.my_id == id
                    &&& stored_record(stored0, k) matches Some(rec)
                    &&& acceptor_restored(inst.acceptor, rec)
                } by {
                    let j = choose|j: int| 0 <= j < states@.len() && states@[j].0 == k;
                    assert(states@[j].0 == k);
                    let last = states@.len() - 1;
                    if j < last {
                        assert(states@[j].0 < states@[last].0);
                    }
                    let rec = stored_record(stored0, k).unwrap();
                    assert(state_of_record(rec, Some(states@[j].1)));
                }
                if states@.len() > 0 {
                    let last = (states@.len() - 1) as int;
                    assert(v.instances.contains_key(states@[last].0));
                }
            }
        }
        r
    }
}

impl<S: StateMachine> MultiPaxosNode<S> {
    /// Puts a new instance under `iid` in a well-formed node.
    fn put_instance_unchecked(&mut self, iid: u64, inst: PaxosInstance<S::Command>)
        requires
            old(self).well_formed(),
            old(self).fits(inst, iid),
        ensures
            final(self).well_formed(),
            final(self)@ == (NodeView { instances: old(self)@.instances.insert(iid, inst@), ..old(self)@ }),
            final(self).stored() == old(self).stored(),
    {
        proof {
            self.lemma_entries_fit();
        }
        self.put_instance(iid, inst);
    }
}

impl<S: StateMachine> StateMachineReplicationAlgorithm<S> for MultiPaxosNode<S> {
    type SMRMessage = Message<S::Command>;

    open spec fn consistent(&self) -> bool {
        self.well_formed()
    }

    open spec fn ready_to_propose(&self) -> bool {
        &&& self.well_formed()
        &&& self@.next_instance_id < u64::MAX
        &&& self@.next_forward_id < u64::MAX
    }

    open spec fn ready_for(&self, message: Message<S::Command>) -> bool {
        &&& self.well_formed()
        &&& self@.next_instance_id < u64::MAX
        &&& self@.next_forward_id < u64::MAX
        &&& message.paxos_instance < u64::MAX
    }

    fn propose(&mut self, command: S::Command) -> (r: crate::Result<ProposalResult<S>>)
        ensures
            final(self).well_formed(),
            old(self)@.saved is None ==> r is Ok,
            r is Ok ==> (final(self)@, r.unwrap().0@, r.unwrap().1) == propose_step(old(self)@, command),
            r is Err ==> failed_saves(old(self)@.saved, final(self)@.saved, propose_events(old(self)@, command)),
    {
        self.propose_command(command)
    }

    fn handle_message(&mut self, message: Message<S::Command>) -> (r: crate::Result<Vec<Message<S::Command>>>)
        ensures
            final(self).well_formed(),
            old(self)@.saved is None ==> r is Ok,
            r is Ok ==> (final(self)@, r.unwrap()@) == handle_step(old(self)@, message),
            r is Err ==> failed_saves(old(self)@.saved, final(self)@.saved, handle_events(old(self)@, message)),
    {
        self.handle_network_message(message)
    }

    fn get_commit_id(&mut self, id: u64) -> (r: Option<CommitResult<S>>)
        ensures
            final(self).well_formed(),
            (final(self)@, r) == commit_step(old(self)@, id),
    {
        self.commit(id)
    }
}

impl<C> MessageKind<C> {
    /// Whether this is a Learn message.
    pub fn is_learn(&self) -> (r: bool)
        ensures
            r == self is LearnMsg,
    {
        match self {
            MessageKind::LearnMsg(_) => true,
            _ => false,
        }
    }
}

} // verus!
