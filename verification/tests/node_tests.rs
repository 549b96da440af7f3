use smr::applier::{apply_committed, apply_entries, record_applied, recover_state_machine};
use smr::multipaxos::trace::{trace_events, TraceEvent};
use smr::multipaxos::storage::CommandLog;
use smr::storage::InMemoryStorage;
use smr::multipaxos::{Message, MessageKind, MultiPaxosNode, ProposalTicket};
use smr::{CommandTrait, SerializableCommand, SmrConfig, StateMachine, StateMachineReplicationAlgorithm};

#[derive(Clone, Eq, PartialEq, Debug, Hash)]
enum Command {
    Put(u32),
    Get(u32),
}

impl CommandTrait for Command {
    fn clone_command(&self) -> Self {
        self.clone()
    }
    fn same_command(&self, other: &Self) -> bool {
        self == other
    }
}

impl SerializableCommand for Command {
    fn encode_command(&self) -> Vec<u8> {
        match self {
            Command::Put(v) => format!("S{}", v).into_bytes(),
            Command::Get(v) => format!("G{}", v).into_bytes(),
        }
    }
    fn decode_command(bytes: &[u8]) -> Option<Self> {
        let text = std::str::from_utf8(bytes).ok()?;
        let (tag, rest) = text.split_at(1);
        let v: u32 = rest.parse().ok()?;
        match tag {
            "S" => Some(Command::Put(v)),
            "G" => Some(Command::Get(v)),
            _ => None,
        }
    }
}

struct MySM {
    values: Vec<u32>,
}

impl StateMachine for MySM {
    type Command = Command;
    type Output = ();

    fn apply(&mut self, command: Self::Command) -> smr::Result<Self::Output> {
        match command {
            Command::Put(value) => {
                self.values.push(value);
            }
            Command::Get(value) => {
                let _ign = self.values.contains(&value);
            }
        };
        Ok(())
    }
}

fn make_config(id: u32) -> SmrConfig {
    let peers: Vec<(u32, String)> = (0..3u32)
        .filter(|&i| i != id)
        .map(|i| (i, format!("127.0.0.1:{}", 9000 + i)))
        .collect();
    SmrConfig::new(id, None, peers).unwrap()
}

/// Deliver messages to all nodes except the sender, return all responses.
fn deliver_to_others(
    nodes: &mut [MultiPaxosNode<MySM>],
    msgs: &[Message<Command>],
) -> Vec<Message<Command>> {
    let mut responses = Vec::new();
    for msg in msgs {
        let sender = msg.sender_id();
        for node in nodes.iter_mut() {
            if node.id() != sender {
                if let Ok(r) = node.handle_message(msg.clone()) {
                    responses.extend(r);
                }
            }
        }
    }
    responses
}

/// Deliver messages only to a specific node, return responses.
fn deliver_to(node: &mut MultiPaxosNode<MySM>, msgs: &[Message<Command>]) -> Vec<Message<Command>> {
    let mut responses = Vec::new();
    for msg in msgs {
        if let Ok(r) = node.handle_message(msg.clone()) {
            responses.extend(r);
        }
    }
    responses
}

#[test]
fn test_smr_multipaxos() {
    let other_nodes = vec![(2, "123".to_string()), (3, "124".to_string()), (4, "125".to_string())];
    let mut mpn1: MultiPaxosNode<MySM> =
        MultiPaxosNode::new(SmrConfig::new(1, None, other_nodes.clone()).unwrap());
    let _mpn2: MultiPaxosNode<MySM> = MultiPaxosNode::new(SmrConfig::new(2, None, other_nodes).unwrap());
    let _out = mpn1.propose(Command::Put(42)).unwrap();
    let _out = mpn1.propose(Command::Put(42)).unwrap();
    let _out = mpn1.propose(Command::Put(42)).unwrap();
    let out = mpn1.propose(Command::Put(42)).unwrap();
    println!("{:?}", out.0);
}

/// Node proposes, full Paxos round completes → becomes leader.
#[test]
fn test_leader_after_successful_proposal() {
    let mut nodes: Vec<MultiPaxosNode<MySM>> = (0..3u32).map(|id| MultiPaxosNode::new(make_config(id))).collect();
    assert!(nodes[0].leader_ballot().is_none());

    let (propose_msgs, _rx) = nodes[0].propose(Command::Put(42)).unwrap();
    let phase1_responses = deliver_to_others(&mut nodes, &propose_msgs);
    let phase2_msgs = deliver_to(&mut nodes[0], &phase1_responses);
    // Not leader yet — Phase 2 hasn't completed
    assert!(nodes[0].leader_ballot().is_none());
    let phase2_responses = deliver_to_others(&mut nodes, &phase2_msgs);
    let _learn_msgs = deliver_to(&mut nodes[0], &phase2_responses);
    assert!(
        nodes[0].leader_ballot().is_some(),
        "Node should become leader after completing a full Paxos round"
    );
}

/// Node is leader, then another node proposes with a higher ballot → old leader
/// loses leadership when its acceptor promises the higher ballot.
#[test]
fn test_leader_lost_on_higher_ballot() {
    let mut nodes: Vec<MultiPaxosNode<MySM>> = (0..3u32).map(|id| MultiPaxosNode::new(make_config(id))).collect();

    let (msgs, _rx) = nodes[0].propose(Command::Put(1)).unwrap();
    let r1 = deliver_to_others(&mut nodes, &msgs);
    let r2 = deliver_to(&mut nodes[0], &r1);
    let r3 = deliver_to_others(&mut nodes, &r2);
    let _r4 = deliver_to(&mut nodes[0], &r3);
    assert!(nodes[0].leader_ballot().is_some());

    let (msgs_1, _rx) = nodes[1].propose(Command::Put(2)).unwrap();
    let _ = deliver_to(&mut nodes[0], &msgs_1);

    assert!(
        nodes[0].leader_ballot().is_none(),
        "Node 0 should lose leadership after promising a higher ballot"
    );
}

/// Proposal starts but doesn't complete — node should NOT be leader.
#[test]
fn test_no_leader_without_round_completion() {
    let mut nodes: Vec<MultiPaxosNode<MySM>> = (0..3u32).map(|id| MultiPaxosNode::new(make_config(id))).collect();

    let (msgs, _rx) = nodes[0].propose(Command::Put(42)).unwrap();
    let r1 = deliver_to_others(&mut nodes, &msgs);
    let _r2 = deliver_to(&mut nodes[0], &r1);

    assert!(
        nodes[0].leader_ballot().is_none(),
        "Node should NOT be leader until a full round completes"
    );
}

/// Delivers everything until no message is left; returns the number of rounds.
fn run_to_quiescence(nodes: &mut [MultiPaxosNode<MySM>], mut pending: Vec<Message<Command>>) {
    let mut rounds = 0;
    while !pending.is_empty() && rounds < 50 {
        pending = deliver_to_others(nodes, &pending);
        rounds += 1;
    }
}

#[test]
fn all_nodes_commit_the_proposed_command() {
    let mut nodes: Vec<MultiPaxosNode<MySM>> = (0..3u32).map(|id| MultiPaxosNode::new(make_config(id))).collect();
    let (msgs, ticket) = nodes[0].propose(Command::Put(7)).unwrap();
    assert_eq!(ticket, ProposalTicket::Local(0));
    run_to_quiescence(&mut nodes, msgs);
    assert_eq!(nodes[0].get_commit_id(0), Some((Command::Put(7), Some(ProposalTicket::Local(0)))));
    // the ticket is handed out once
    assert_eq!(nodes[0].get_commit_id(0), Some((Command::Put(7), None)));
    assert_eq!(nodes[1].get_commit_id(0), Some((Command::Put(7), None)));
    assert_eq!(nodes[2].get_commit_id(0), Some((Command::Put(7), None)));
    assert_eq!(nodes[1].get_commit_id(1), None);
}

#[test]
fn leader_proposes_with_phase_one_and_others_forward() {
    let mut nodes: Vec<MultiPaxosNode<MySM>> = (0..3u32).map(|id| MultiPaxosNode::new(make_config(id))).collect();
    let (msgs, _) = nodes[0].propose(Command::Put(1)).unwrap();
    run_to_quiescence(&mut nodes, msgs);
    assert!(nodes[0].is_leader());
    let b = nodes[0].leader_ballot().unwrap();
    assert_eq!(b, 3);
    // the leader still runs Phase 1 in its new instance
    let (msgs, ticket) = nodes[0].propose(Command::Put(2)).unwrap();
    assert_eq!(ticket, ProposalTicket::Local(1));
    assert!(matches!(&msgs[0].clone().kind(), MessageKind::PrepareMsg(p) if p.ballot == 3));
    run_to_quiescence(&mut nodes, msgs);
    assert_eq!(nodes[2].get_commit_id(1).map(|c| c.0), Some(Command::Put(2)));
    // node 1 knows the leader and forwards
    let (msgs, ticket) = nodes[1].propose(Command::Put(3)).unwrap();
    assert_eq!(ticket, ProposalTicket::Forwarded(0));
    assert!(matches!(&msgs[0].clone().kind(), MessageKind::RequestCommandToLeader { forward_id: 0, .. }));
    run_to_quiescence(&mut nodes, msgs);
    assert_eq!(nodes[1].get_commit_id(2), Some((Command::Put(3), Some(ProposalTicket::Forwarded(0)))));
}

fn make_config5(id: u32) -> SmrConfig {
    let peers: Vec<(u32, String)> = (0..5u32)
        .filter(|&i| i != id)
        .map(|i| (i, format!("127.0.0.1:{}", 9100 + i)))
        .collect();
    SmrConfig::new(id, None, peers).unwrap()
}

/// Delivers `msgs` to each of the nodes `targets`, returning their answers.
fn deliver_to_nodes(
    nodes: &mut [MultiPaxosNode<MySM>],
    targets: &[usize],
    msgs: &[Message<Command>],
) -> Vec<Message<Command>> {
    let mut out = Vec::new();
    for t in targets {
        out.extend(deliver_to(&mut nodes[*t], msgs));
    }
    out
}

/// A leader runs Phase 1 in its new instance too: when another node had a
/// command chosen there at a lower ballot that the leader never heard of, the
/// leader's Phase 1 finds it, and the leader has that same command chosen.
#[test]
fn leader_keeps_an_unseen_choice() {
    let mut nodes: Vec<MultiPaxosNode<MySM>> = (0..5u32).map(|id| MultiPaxosNode::new(make_config5(id))).collect();
    // node 4 wins instance 0 with nodes 2 and 3
    let (msgs, _) = nodes[4].propose(Command::Put(1)).unwrap();
    let promises = deliver_to_nodes(&mut nodes, &[2, 3], &msgs);
    let accepts = deliver_to(&mut nodes[4], &promises);
    let acks = deliver_to_nodes(&mut nodes, &[2, 3], &accepts);
    let _ = deliver_to(&mut nodes[4], &acks);
    assert_eq!(nodes[4].leader_ballot(), Some(9));
    // node 0 has command 10 chosen in instance 1 with nodes 1 and 2, and learns it
    let _ = nodes[0].propose(Command::Put(99)).unwrap();
    let (msgs, _) = nodes[0].propose(Command::Put(10)).unwrap();
    assert_eq!(msgs[0].instance_id(), 1);
    let promises = deliver_to_nodes(&mut nodes, &[1, 2], &msgs);
    let accepts = deliver_to(&mut nodes[0], &promises);
    let acks = deliver_to_nodes(&mut nodes, &[1, 2], &accepts);
    let learns = deliver_to(&mut nodes[0], &acks);
    let relays = deliver_to_nodes(&mut nodes, &[1, 2], &learns);
    let _ = deliver_to(&mut nodes[0], &relays);
    assert_eq!(nodes[0].get_commit_id(1).map(|c| c.0), Some(Command::Put(10)));
    // node 4 still leads; its proposal of 20 in instance 1 starts with Phase 1
    let (msgs, _) = nodes[4].propose(Command::Put(20)).unwrap();
    assert_eq!(msgs[0].instance_id(), 1);
    assert!(matches!(&msgs[0].clone().kind(), MessageKind::PrepareMsg(_)));
    let promises = deliver_to_nodes(&mut nodes, &[2, 3], &msgs);
    let accepts = deliver_to(&mut nodes[4], &promises);
    let acks = deliver_to_nodes(&mut nodes, &[2, 3], &accepts);
    let learns = deliver_to(&mut nodes[4], &acks);
    let relays = deliver_to_nodes(&mut nodes, &[2, 3], &learns);
    let _ = deliver_to(&mut nodes[4], &relays);
    assert_eq!(nodes[4].get_commit_id(1).map(|c| c.0), Some(Command::Put(10)));
}

#[test]
fn apply_committed_applies_in_order_and_logs_first() {
    let mut nodes: Vec<MultiPaxosNode<MySM>> = (0..3u32).map(|id| MultiPaxosNode::new(make_config(id))).collect();
    let (msgs, _) = nodes[0].propose(Command::Put(7)).unwrap();
    run_to_quiescence(&mut nodes, msgs);
    let (msgs, _) = nodes[0].propose(Command::Put(8)).unwrap();
    run_to_quiescence(&mut nodes, msgs);
    let mut sm = MySM { values: Vec::new() };
    let mut log = Some(CommandLog::<Command>::new(Box::new(InMemoryStorage::new())));
    let mut last_applied = 0u64;
    let (answers, _) = apply_committed(&mut nodes[0], &mut sm, &mut log, &mut last_applied);
    assert_eq!(last_applied, 2);
    assert_eq!(sm.values, vec![7, 8]);
    let tickets: Vec<ProposalTicket> = answers.iter().map(|a| a.0).collect();
    assert_eq!(tickets, vec![ProposalTicket::Local(0), ProposalTicket::Local(1)]);
    let log = log.unwrap();
    assert_eq!(log.replay().unwrap(), vec![(0, Command::Put(7)), (1, Command::Put(8))]);
    assert_eq!(log.last_applied().unwrap(), 2);
    // nothing more is committed: a second call applies nothing
    let mut none: Option<CommandLog<Command>> = None;
    let (answers, _) = apply_committed(&mut nodes[0], &mut sm, &mut none, &mut last_applied);
    assert!(answers.is_empty());
    assert_eq!(last_applied, 2);
}

#[test]
fn recover_state_machine_replays_the_log() {
    let mut log = CommandLog::<Command>::new(Box::new(InMemoryStorage::new()));
    log.append(0, &Command::Put(3)).unwrap();
    log.append(1, &Command::Put(4)).unwrap();
    log.set_last_applied(2).unwrap();
    let mut sm = MySM { values: Vec::new() };
    let (r, _) = recover_state_machine(&mut sm, &log);
    assert_eq!(r.unwrap(), 2);
    assert_eq!(sm.values, vec![3, 4]);
}

#[test]
fn record_applied_records_a_success_only() {
    let mut log = Some(CommandLog::<Command>::new(Box::new(InMemoryStorage::new())));
    let mut answers: Vec<(ProposalTicket, u32)> = Vec::new();
    let ok = record_applied(&mut log, 4, Some(ProposalTicket::Local(4)), Ok(9u32), &mut answers);
    assert!(ok);
    assert_eq!(answers, vec![(ProposalTicket::Local(4), 9)]);
    assert_eq!(log.as_ref().unwrap().last_applied().unwrap(), 5);
    let refused: smr::Result<u32> = Err(anyhow_error());
    let ok = record_applied(&mut log, 5, Some(ProposalTicket::Local(5)), refused, &mut answers);
    assert!(!ok);
    assert_eq!(answers.len(), 1);
    assert_eq!(log.unwrap().last_applied().unwrap(), 5);
}

fn anyhow_error() -> anyhow::Error {
    anyhow::Error::msg("refused")
}

struct Picky {
    seen: Vec<u32>,
}

impl StateMachine for Picky {
    type Command = Command;
    type Output = ();

    fn apply(&mut self, command: Self::Command) -> smr::Result<Self::Output> {
        match command {
            Command::Put(2) => Err(anyhow_error()),
            Command::Put(v) | Command::Get(v) => {
                self.seen.push(v);
                Ok(())
            }
        }
    }
}

#[test]
fn apply_entries_stops_at_the_first_refusal() {
    let mut sm = Picky { seen: Vec::new() };
    let entries = vec![(0u64, Command::Put(1)), (1, Command::Put(2)), (2, Command::Put(3))];
    let (r, _) = apply_entries(&mut sm, &entries);
    assert!(r.is_err());
    assert_eq!(sm.seen, vec![1]);
    let mut sm = Picky { seen: Vec::new() };
    let entries = vec![(0u64, Command::Put(1)), (1, Command::Put(3))];
    let (r, _) = apply_entries(&mut sm, &entries);
    assert!(r.is_ok());
    assert_eq!(sm.seen, vec![1, 3]);
}

#[test]
fn trace_events_follow_a_proposal() {
    let mut nodes: Vec<MultiPaxosNode<MySM>> = (0..3u32).map(|id| MultiPaxosNode::new(make_config(id))).collect();
    let (msgs, _) = nodes[0].propose(Command::Put(5)).unwrap();
    let events = trace_events(0, None, &msgs);
    assert!(matches!(events[0], TraceEvent::Phase1a { node_id: 0, instance_id: 0, ballot: 3 }));
    assert!(matches!(events[1], TraceEvent::Phase1b { node_id: 0, ballot: 3, sender: 0, max_bal: 3, .. }));
    // node 1 answers the Prepare with a promise
    let incoming = msgs[0].clone();
    let kind = incoming.msg.clone();
    let answers = nodes[1].handle_message(incoming).unwrap();
    let events = trace_events(1, Some(&kind), &answers);
    assert!(matches!(events[0], TraceEvent::Phase1b { node_id: 1, ballot: 3, sender: 0, max_bal: 3, .. }));
}
