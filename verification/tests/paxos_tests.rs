use smr::paxos::{Accept, Acceptor, Node, Proposal, Proposer, SharedMemoryChannel};

#[test]
fn it_works() {
    assert_eq!(1 + 1, 2);
}

#[test]
fn acceptor_test_acceptor() {
    let mut acceptor = Acceptor::new();
    let response = acceptor.handle_proposal(Proposal { ballot: 1 });
    assert!(response.is_some());
    let accepted = Accept { ballot: 1, value: 1 };
    let accepted_response = acceptor.handle_accept(accepted);
    assert!(accepted_response.is_some());
    let accepted_response = accepted_response.unwrap();
    assert_eq!(accepted_response.ballot, 1);
    assert_eq!(accepted_response.value, 1);

    assert!(acceptor.handle_proposal(Proposal { ballot: 2 }).is_some());
    assert_eq!(acceptor.max_ballot, 1);
    // Should not promise to vote in a ballot smaller than the max ballot.
    assert!(acceptor.handle_proposal(Proposal { ballot: 1 }).is_none());
}

#[test]
fn paxos_acceptor_refuses_lower_accept() {
    let mut acceptor = Acceptor::new();
    assert!(acceptor.handle_accept(Accept { ballot: 5, value: 7 }).is_some());
    assert!(acceptor.handle_accept(Accept { ballot: 4, value: 8 }).is_none());
    assert_eq!(acceptor.max_ballot, 5);
    let promise = acceptor.handle_proposal(Proposal { ballot: 6 }).unwrap();
    assert_eq!(promise.max_accepted, Some(smr::paxos::MaxAcceptedProposal(5, 7)));
}

#[test]
fn paxos_proposer_moves_by_rounds() {
    let mut proposer = Proposer::new(3, 42);
    assert_eq!(proposer.new_proposal(), Proposal { ballot: 65539 });
    assert_eq!(proposer.new_proposal(), Proposal { ballot: 131075 });
}

#[test]
fn paxos_ballots_of_distinct_proposers_differ() {
    let mut p = Proposer::new(1, 0);
    let mut q = Proposer::new(2, 0);
    let mut seen = Vec::new();
    for _ in 0..4 {
        seen.push(p.new_proposal().ballot);
    }
    for _ in 0..4 {
        assert!(!seen.contains(&q.new_proposal().ballot));
    }
}

#[test]
fn paxos_node_starts_with_its_identifier() {
    let node = Node::new(7, SharedMemoryChannel::new());
    assert_eq!(node.id(), 7);
}
