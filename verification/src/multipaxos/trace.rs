//! Protocol events for conformance checking against a TLA+ specification: each
//! step of an instance at which the protocol's state moves (Phase 1a and 1b, a
//! refused Prepare, Phase 2a and 2b, a refused Accept, a Learn) as data.
//!
//! A node answers a message and then each of its own answers in turn, so among
//! the messages it sends for an instance each one answers the message before it
//! (the first answers the message it handled). The events are read from these
//! pairs.
use crate::commands::CommandTrait;
use crate::multipaxos::synod::{Message, MessageKind};
use crate::multipaxos::Ballot;
use vstd::prelude::*;

verus! {

/// A protocol event of node `node_id` in instance `instance_id`.
pub enum TraceEvent<C> {
    /// The node's proposer sent a Prepare.
    Phase1a { node_id: u32, instance_id: u64, ballot: Ballot },
    /// The node's acceptor promised the Prepare of `sender` for `ballot`.
    Phase1b {
        node_id: u32,
        instance_id: u64,
        ballot: Ballot,
        sender: u32,
        max_bal: Ballot,
        max_accepted: Option<(Ballot, C)>,
    },
    /// The node's acceptor refused the Prepare of `sender` for `ballot`.
    NackPrepare { node_id: u32, instance_id: u64, ballot: Ballot, sender: u32, max_bal: Ballot },
    /// The node's proposer sent an Accept.
    Phase2a { node_id: u32, instance_id: u64, ballot: Ballot, value: C },
    /// The node's acceptor accepted the Accept of `sender`.
    Phase2b { node_id: u32, instance_id: u64, ballot: Ballot, sender: u32, max_bal: Ballot, max_v_bal: Ballot, value: C },
    /// The node's acceptor refused the Accept of `sender`.
    NackAccept { node_id: u32, instance_id: u64, ballot: Ballot, sender: u32, max_bal: Ballot },
    /// The node learned `value`, chosen in `ballot`.
    Learn { node_id: u32, instance_id: u64, ballot: Ballot, value: C },
}

/// The event of node `node_id` when it answered `incoming` (or, with none, made a
/// proposal) with `answer`, in instance `iid`.
pub open spec fn event_of<C>(node_id: u32, iid: u64, incoming: Option<MessageKind<C>>, answer: MessageKind<C>) -> Option<
    TraceEvent<C>,
> {
    match (incoming, answer) {
        (None, MessageKind::PrepareMsg(p)) => Some(TraceEvent::Phase1a { node_id, instance_id: iid, ballot: p.ballot }),
        (Some(MessageKind::RequestCommandToLeader { .. }), MessageKind::PrepareMsg(p)) => Some(
            TraceEvent::Phase1a { node_id, instance_id: iid, ballot: p.ballot },
        ),
        (Some(MessageKind::PrepareMsg(p)), MessageKind::PromiseMsg(pr)) => Some(
            TraceEvent::Phase1b {
                node_id,
                instance_id: iid,
                ballot: p.ballot,
                sender: p.sender,
                max_bal: pr.ballot,
                max_accepted: match pr.max_accepted {
                    Some(a) => Some((a.ballot, a.command)),
                    None => None,
                },
            },
        ),
        (Some(MessageKind::PrepareMsg(p)), MessageKind::NackPrepareMsg(n)) => Some(
            TraceEvent::NackPrepare { node_id, instance_id: iid, ballot: p.ballot, sender: p.sender, max_bal: n.max_ballot },
        ),
        (Some(MessageKind::PromiseMsg(_)), MessageKind::AcceptMsg(a)) => Some(
            TraceEvent::Phase2a { node_id, instance_id: iid, ballot: a.ballot, value: a.command },
        ),
        (Some(MessageKind::AcceptMsg(x)), MessageKind::AckAcceptMsg(_)) => Some(
            TraceEvent::Phase2b {
                node_id,
                instance_id: iid,
                ballot: x.ballot,
                sender: x.sender,
                max_bal: x.ballot,
                max_v_bal: x.ballot,
                value: x.command,
            },
        ),
        (Some(MessageKind::AcceptMsg(x)), MessageKind::NackAcceptMsg(n)) => Some(
            TraceEvent::NackAccept { node_id, instance_id: iid, ballot: x.ballot, sender: x.sender, max_bal: n.max_ballot },
        ),
        (Some(MessageKind::AckAcceptMsg(_)), MessageKind::LearnMsg(l)) => Some(
            TraceEvent::Learn { node_id, instance_id: iid, ballot: l.ballot, value: l.command },
        ),
        (Some(MessageKind::LearnMsg(_)), MessageKind::LearnMsg(l)) => Some(
            TraceEvent::Learn { node_id, instance_id: iid, ballot: l.ballot, value: l.command },
        ),
        _ => None,
    }
}

/// The message that the `i`-th sent message answers: the one before it, or
/// `incoming` for the first.
pub open spec fn answered<C>(incoming: Option<MessageKind<C>>, sent: Seq<Message<C>>, i: int) -> Option<MessageKind<C>> {
    if i == 0 {
        incoming
    } else {
        Some(sent[i - 1].msg)
    }
}

/// The events of the first `n` of the messages a node sent.
pub open spec fn events_of<C>(node_id: u32, incoming: Option<MessageKind<C>>, sent: Seq<Message<C>>, n: int) -> Seq<
    TraceEvent<C>,
>
    decreases n,
{
    if n <= 0 {
        Seq::empty()
    } else {
        let before = events_of(node_id, incoming, sent, n - 1);
        match event_of(node_id, sent[n - 1].paxos_instance, answered(incoming, sent, n - 1), sent[n - 1].msg) {
            Some(e) => before.push(e),
            None => before,
        }
    }
}

/// A copy of an optional accepted proposal as a pair.
fn accepted_pair<C: CommandTrait>(p: &Option<crate::multipaxos::synod::MaxAcceptedProposal<C>>) -> (r: Option<(Ballot, C)>)
    ensures
        r == match *p {
            Some(a) => Some((a.ballot, a.command)),
            None => None,
        },
{
    match p {
        Some(a) => Some((a.ballot, a.command.clone_command())),
        None => None,
    }
}

/// The event of node `node_id` when it answered `incoming` with `answer`.
pub fn event_for<C: CommandTrait>(node_id: u32, iid: u64, incoming: Option<&MessageKind<C>>, answer: &MessageKind<C>) -> (r: Option<
    TraceEvent<C>,
>)
    ensures
        r == event_of(
            node_id,
            iid,
            match incoming {
                Some(m) => Some(*m),
                None => None,
            },
            *answer,
        ),
{
    match (incoming, answer) {
        (None, MessageKind::PrepareMsg(p)) => Some(TraceEvent::Phase1a { node_id, instance_id: iid, ballot: p.ballot }),
        (Some(MessageKind::RequestCommandToLeader { .. }), MessageKind::PrepareMsg(p)) => Some(
            TraceEvent::Phase1a { node_id, instance_id: iid, ballot: p.ballot },
        ),
        (Some(MessageKind::PrepareMsg(p)), MessageKind::PromiseMsg(pr)) => Some(
            TraceEvent::Phase1b {
                node_id,
                instance_id: iid,
                ballot: p.ballot,
                sender: p.sender,
                max_bal: pr.ballot,
                max_accepted: accepted_pair(&pr.max_accepted),
            },
        ),
        (Some(MessageKind::PrepareMsg(p)), MessageKind::NackPrepareMsg(n)) => Some(
            TraceEvent::NackPrepare { node_id, instance_id: iid, ballot: p.ballot, sender: p.sender, max_bal: n.max_ballot },
        ),
        (Some(MessageKind::PromiseMsg(_)), MessageKind::AcceptMsg(a)) => Some(
            TraceEvent::Phase2a { node_id, instance_id: iid, ballot: a.ballot, value: a.command.clone_command() },
        ),
        (Some(MessageKind::AcceptMsg(x)), MessageKind::AckAcceptMsg(_)) => Some(
            TraceEvent::Phase2b {
                node_id,
                instance_id: iid,
                ballot: x.ballot,
                sender: x.sender,
                max_bal: x.ballot,
                max_v_bal: x.ballot,
                value: x.command.clone_command(),
            },
        ),
        (Some(MessageKind::AcceptMsg(x)), MessageKind::NackAcceptMsg(n)) => Some(
            TraceEvent::NackAccept { node_id, instance_id: iid, ballot: x.ballot, sender: x.sender, max_bal: n.max_ballot },
        ),
        (Some(MessageKind::AckAcceptMsg(_)), MessageKind::LearnMsg(l)) => Some(
            TraceEvent::Learn { node_id, instance_id: iid, ballot: l.ballot, value: l.command.clone_command() },
        ),
        (Some(MessageKind::LearnMsg(_)), MessageKind::LearnMsg(l)) => Some(
            TraceEvent::Learn { node_id, instance_id: iid, ballot: l.ballot, value: l.command.clone_command() },
        ),
        _ => None,
    }
}

/// The protocol events of node `node_id` that the messages `sent` show, when the
/// node sent them in answer to `incoming` (with none, for a proposal it made).
pub fn trace_events<C: CommandTrait>(node_id: u32, incoming: Option<&MessageKind<C>>, sent: &Vec<Message<C>>) -> (r: Vec<
    TraceEvent<C>,
>)
    ensures
        r@ == events_of(
            node_id,
            match incoming {
                Some(m) => Some(*m),
                None => None,
            },
            sent@,
            sent@.len() as int,
        ),
{
    let ghost inc = match incoming {
        Some(m) => Some(*m),
        None => None,
    };
    let mut out: Vec<TraceEvent<C>> = Vec::new();
    let mut i: usize = 0;
    while i < sent.len()
        invariant
            i <= sent@.len(),
            out@ == events_of(node_id, inc, sent@, i as int),
            inc == match incoming {
                Some(m) => Some(*m),
                None => None,
            },
        decreases sent.len() - i,
    {
        let e = if i == 0 {
            event_for(node_id, sent[i].paxos_instance, incoming, &sent[i].msg)
        } else {
            event_for(node_id, sent[i].paxos_instance, Some(&sent[i - 1].msg), &sent[i].msg)
        };
        match e {
            Some(ev) => {
                out.push(ev);
            },
            None => {},
        }
        i = i + 1;
    }
    out
}

} // verus!
