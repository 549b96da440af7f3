use smr::multipaxos::storage::PaxosStorage;
use smr::multipaxos::{
    Accept, AckAccept, Acceptor, Learn, Learner, MaxAcceptedProposal, MessageKind, NackAccept,
    PaxosInstance, Prepare, Promise, Proposer,
};
use smr::storage::InMemoryStorage;

#[test]
fn test_acceptor() {
    let mut acceptor: Acceptor<u32> = Acceptor::new(0);
    let response = acceptor.handle_prepare(Prepare { sender: 1, ballot: 1 });
    assert!(matches!(response, MessageKind::PromiseMsg(_)));
    let accepted = Accept { sender: 1, ballot: 1, command: 1 };
    let accepted_response = acceptor.handle_accept(accepted);
    assert!(matches!(accepted_response, MessageKind::AckAcceptMsg(ref a) if a.ballot == 1));

    assert!(matches!(
        acceptor.handle_prepare(Prepare { sender: 2, ballot: 2 }),
        MessageKind::PromiseMsg(_)
    ));
    assert_eq!(acceptor.max_ballot, 2);
    // Should not promise to vote in a ballot smaller than the max ballot.
    assert!(matches!(
        acceptor.handle_prepare(Prepare { sender: 1, ballot: 1 }),
        MessageKind::NackPrepareMsg(_)
    ));
}

#[test]
fn acceptor_refuses_accept_below_promise() {
    let mut acceptor: Acceptor<u32> = Acceptor::new(4);
    acceptor.handle_prepare(Prepare { sender: 1, ballot: 7 });
    let r = acceptor.handle_accept(Accept { sender: 1, ballot: 6, command: 9 });
    assert_eq!(r, MessageKind::NackAcceptMsg(NackAccept { sender: 4, max_ballot: 7 }));
    assert!(acceptor.max_accepted.is_none());
    let r = acceptor.handle_prepare(Prepare { sender: 2, ballot: 7 });
    assert!(matches!(r, MessageKind::NackPrepareMsg(n) if n.max_ballot == 7));
}

#[test]
fn promise_reports_what_was_accepted() {
    let mut acceptor: Acceptor<u32> = Acceptor::new(0);
    acceptor.handle_accept(Accept { sender: 1, ballot: 3, command: 11 });
    let r = acceptor.handle_prepare(Prepare { sender: 2, ballot: 4 });
    assert_eq!(
        r,
        MessageKind::PromiseMsg(Promise {
            sender: 0,
            ballot: 4,
            max_accepted: Some(MaxAcceptedProposal { ballot: 3, command: 11 }),
        })
    );
}

#[test]
fn test_learner() -> anyhow::Result<()> {
    let mut learner = Learner::new(2);
    learner.handle_learn(Learn { command: 1, sender: 1, ballot: 1 })?;
    assert!(learner.value().is_none());
    learner.handle_learn(Learn { command: 1, sender: 2, ballot: 1 })?;
    assert_eq!(learner.value(), Some(1));

    // at this point, because we reached the quorum, we ignore any other learn message
    learner.handle_learn(Learn { command: 2, sender: 3, ballot: 2 })?;
    learner.handle_learn(Learn { command: 2, sender: 1, ballot: 2 })?;
    assert_eq!(learner.value(), Some(1));
    Ok(())
}

#[test]
fn test_learner_change_ballot() -> anyhow::Result<()> {
    let mut learner = Learner::new(2);
    learner.handle_learn(Learn { command: 1, sender: 1, ballot: 1 })?;
    assert!(learner.value().is_none());
    learner.handle_learn(Learn { command: 1, sender: 2, ballot: 2 })?;
    assert!(learner.value().is_none());

    learner.handle_learn(Learn { command: 2, sender: 3, ballot: 3 })?;
    assert!(learner.value().is_none());

    // sender repeated the same message
    learner.handle_learn(Learn { command: 2, sender: 3, ballot: 3 })?;
    assert!(learner.value().is_none());

    learner.handle_learn(Learn { command: 2, sender: 2, ballot: 3 })?;
    assert_eq!(learner.value(), Some(2));
    Ok(())
}

#[test]
fn test_learner_conflicting_values_same_ballot() -> anyhow::Result<()> {
    let mut learner = Learner::new(2);
    learner.handle_learn(Learn { command: 1, sender: 1, ballot: 1 })?;
    learner.handle_learn(Learn {
        command: 2, // Conflicting value!
        sender: 2,
        ballot: 1,
    })?;
    assert!(learner.value().is_none(), "Value should not be learned yet: {:?}", learner.value()); // No value should be learned yet

    learner.handle_learn(Learn { command: 1, sender: 3, ballot: 1 })?;
    assert_eq!(learner.value(), Some(1)); // 1 wins with quorum
    Ok(())
}

#[test]
fn learner_default_needs_three_votes() -> anyhow::Result<()> {
    let mut learner: Learner<u32> = Learner::default();
    learner.handle_learn(Learn { command: 5, sender: 1, ballot: 1 })?;
    learner.handle_learn(Learn { command: 5, sender: 2, ballot: 1 })?;
    assert!(!learner.is_value_learned());
    learner.handle_learn(Learn { command: 5, sender: 3, ballot: 1 })?;
    assert!(learner.is_value_learned());
    assert_eq!(learner.value(), Some(5));
    Ok(())
}

#[test]
pub fn test_paxosinstance_simple() -> anyhow::Result<()> {
    let mut paxos: PaxosInstance<u32> = PaxosInstance::new(1, 2, 3, 0);
    let to = 5;
    for i in 1..=to {
        let promise: MessageKind<u32> =
            paxos.handle_message(Prepare { sender: 100, ballot: i }.into(), None)?.unwrap();
        assert!(matches!(promise, MessageKind::PromiseMsg(_),), "{:?}", promise);
    }
    let propose = paxos.handle_message(
        MessageKind::RequestCommandToLeader { cmd: 123, forward_id: 0 },
        None,
    )?;
    let proposer_ballot = match &propose {
        Some(MessageKind::PrepareMsg(p)) => p.ballot,
        _ => panic!("expected PrepareMsg, got {:?}", propose),
    };

    // lower ballot, acceptor returns nack
    let promise: Option<MessageKind<u32>> =
        paxos.handle_message(Prepare { sender: 100, ballot: 1 }.into(), None)?;
    assert!(matches!(promise, Some(MessageKind::NackPrepareMsg(_))), "{:?}", paxos);
    // equal ballot, acceptor returns nack
    let promise: Option<MessageKind<u32>> =
        paxos.handle_message(Prepare { sender: 100, ballot: to }.into(), None)?;
    assert!(matches!(promise, Some(MessageKind::NackPrepareMsg(_))), "{:?}", paxos);

    let resp: Option<MessageKind<u32>> = paxos.handle_message(
        Promise { sender: 101, ballot: proposer_ballot, max_accepted: None }.into(),
        None,
    )?;
    assert_eq!(resp, None, "{:?}", paxos);

    let resp: Option<MessageKind<u32>> = paxos.handle_message(
        Promise { sender: 102, ballot: proposer_ballot, max_accepted: None }.into(),
        None,
    )?;
    assert!(matches!(resp, Some(MessageKind::AcceptMsg(_))), "{:?}, paxos: {:?}", resp, paxos);

    // acceptors should return ack message
    let resp = paxos
        .handle_message(Accept { sender: 103, ballot: to, command: 123 }.into(), None)?
        .unwrap();
    assert!(matches!(resp, MessageKind::AckAcceptMsg(_),), "{:?}", resp);

    // when proposer sees a quorum of ack accept, it should issue a new learn message
    let resp: Option<MessageKind<u32>> =
        paxos.handle_message(AckAccept { sender: 104, ballot: to }.into(), None)?;
    assert_eq!(resp, None, "{:?}", paxos);
    let resp: Option<MessageKind<u32>> =
        paxos.handle_message(AckAccept { sender: 105, ballot: to }.into(), None)?;
    assert_eq!(resp, None, "{:?}", paxos);

    Ok(())
}

#[test]
fn test_paxosinstance_persists_acceptor_state() -> anyhow::Result<()> {
    let s = InMemoryStorage::new();
    let mut storage: PaxosStorage<u32> = PaxosStorage::new(Box::new(s));
    let mut paxos: PaxosInstance<u32> = PaxosInstance::new(1, 2, 3, 0);

    // Promise should persist max_ballot
    let resp = paxos.handle_message(Prepare { sender: 2, ballot: 5 }.into(), Some(&mut storage))?;
    assert!(matches!(resp, Some(MessageKind::PromiseMsg(_))));
    let state = storage.load_acceptor_state(0)?.unwrap();
    assert_eq!(state.max_ballot, 5);
    assert!(state.max_accepted.is_none());

    // AckAccept should persist max_accepted
    let resp = paxos.handle_message(
        Accept { sender: 2, ballot: 5, command: 42 }.into(),
        Some(&mut storage),
    )?;
    assert!(matches!(resp, Some(MessageKind::AckAcceptMsg(_))));
    let state = storage.load_acceptor_state(0)?.unwrap();
    assert_eq!(state.max_ballot, 5);
    let acc = state.max_accepted.unwrap();
    assert_eq!(acc.ballot, 5);
    assert_eq!(acc.command, 42);

    // Nack should NOT update storage
    let resp = paxos.handle_message(Prepare { sender: 3, ballot: 3 }.into(), Some(&mut storage))?;
    assert!(matches!(resp, Some(MessageKind::NackPrepareMsg(_))));
    // Storage still has ballot=5, not 3
    let state = storage.load_acceptor_state(0)?.unwrap();
    assert_eq!(state.max_ballot, 5);

    Ok(())
}

#[test]
fn instance_passes_on_a_learn_once() -> anyhow::Result<()> {
    let mut paxos: PaxosInstance<u32> = PaxosInstance::new(1, 2, 3, 0);
    // another node's Learn is passed on under this node's identifier
    let r = paxos.handle_message(Learn { sender: 2, ballot: 4, command: 9 }.into(), None)?;
    assert_eq!(r, Some(MessageKind::LearnMsg(Learn { sender: 1, ballot: 4, command: 9 })));
    assert_eq!(paxos.get_value(), None);
    // its own Learn is counted but not passed on
    let r = paxos.handle_message(Learn { sender: 1, ballot: 4, command: 9 }.into(), None)?;
    assert_eq!(r, None);
    assert_eq!(paxos.get_value(), Some(9));
    // once learned, nothing more is passed on
    let r = paxos.handle_message(Learn { sender: 0, ballot: 4, command: 9 }.into(), None)?;
    assert_eq!(r, None);
    Ok(())
}

#[test]
fn test_proposer() {
    let mut proposer: Proposer<u32> = Proposer::new(1, 2, 3);
    let prepare = proposer.new_prepare(123);
    let ballot = match prepare {
        MessageKind::PrepareMsg(p) => p.ballot,
        other => panic!("Failed: {:?}", other),
    };
    assert_eq!(ballot, 4);
    let promise = Promise { sender: 2, ballot, max_accepted: None };
    let resp = proposer.handle_message(promise.clone().into());
    assert!(resp.is_none());
    if proposer.phase_index() == 1 {
        assert_eq!(proposer.promise_count(), 1);
        assert!(proposer.highest_reported().is_none());
        assert_eq!(proposer.proposed_value(), Some(123));
        assert_eq!(proposer.ballot(), ballot);
    } else {
        panic!("Failed");
    }
    let resp = proposer.handle_message(Promise { sender: 3, ballot, max_accepted: None }.into());
    assert!(matches!(resp.unwrap(), MessageKind::AcceptMsg(_)));
    assert_eq!(proposer.phase_index(), 2);
    let resp = proposer.handle_message(AckAccept { sender: 2, ballot }.into());
    assert!(resp.is_none());
    assert_eq!(proposer.phase_index(), 2);
    let resp = proposer.handle_message(AckAccept { sender: 3, ballot }.into());
    assert!(resp.is_some_and(|t| matches!(t, MessageKind::LearnMsg(_))));
    assert_eq!(proposer.phase_index(), 3);
}

#[test]
fn proposer_counts_each_acceptor_once_and_adopts_highest_report() {
    let mut proposer: Proposer<u32> = Proposer::new(0, 2, 3);
    let ballot = proposer.new_prepare(7).clone();
    let ballot = match ballot {
        MessageKind::PrepareMsg(p) => p.ballot,
        _ => panic!("Failed"),
    };
    assert_eq!(ballot, 3);
    let low = Some(MaxAcceptedProposal { ballot: 1, command: 10 });
    let high = Some(MaxAcceptedProposal { ballot: 2, command: 20 });
    assert!(proposer.handle_message(Promise { sender: 1, ballot, max_accepted: high }.into()).is_none());
    // the same acceptor again does not make a quorum
    assert!(proposer.handle_message(Promise { sender: 1, ballot, max_accepted: None }.into()).is_none());
    // a promise for another ballot is ignored
    assert!(proposer.handle_message(Promise { sender: 2, ballot: 99, max_accepted: None }.into()).is_none());
    let r = proposer.handle_message(Promise { sender: 2, ballot, max_accepted: low }.into());
    assert_eq!(r, Some(MessageKind::AcceptMsg(Accept { sender: 0, ballot: 3, command: 20 })));
}
