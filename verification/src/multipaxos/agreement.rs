//! Agreement in one Paxos instance across a cluster.
//!
//! The cluster is modelled by the instance of each node, the set of every message
//! of the instance ever sent, and the set of nodes whose proposer has started a
//! proposal in it. A step is one of: a node's proposer starts Phase 1 for a
//! command (once per node and instance, as a node proposes in a fresh instance);
//! a node handles any message ever sent, as `instance_step` says, and sends its
//! answer; a node restarts with the acceptor state it saved before answering, and
//! a fresh proposer and learner. Messages may be lost, repeated or reordered.
//!
//! In every state reachable so, two nodes never learn different commands. These
//! are all the steps a node takes in an instance: a node places every proposal of
//! its own with Phase 1, leader or not.
use crate::multipaxos::quorum_of;
use crate::multipaxos::synod::acceptor::{accept_step, prepare_step};
use crate::multipaxos::synod::learner::LearnerView;
use crate::multipaxos::synod::proposer::{
    chosen_command, higher_proposal, lemma_higher_proposal, new_prepare_step, proposer_step,
    ProposerPhase, ProposerView,
};
use crate::multipaxos::synod::{
    instance_step, lemma_instance_step_well_formed, Accept, AckAccept, InstanceView, Learn,
    MaxAcceptedProposal, MessageKind, Prepare, Promise,
};
use crate::multipaxos::Ballot;
use vstd::prelude::*;
use vstd::set_lib::{lemma_len_subset, lemma_set_intersect_union_lens};

verus! {

/// One instance across the cluster.
#[verifier::reject_recursive_types(C)]
pub struct ClusterView<C> {
    /// The instance of each node, by node identifier.
    pub nodes: Map<u32, InstanceView<C>>,
    /// Every message of the instance ever sent.
    pub sent: Set<MessageKind<C>>,
    /// The nodes whose proposer has started a proposal in the instance.
    pub started: Set<u32>,
    /// The number of nodes.
    pub total: u32,
}

/// Node `a` acknowledged the Accept of ballot `b`.
pub open spec fn sent_ack<C>(s: ClusterView<C>, a: u32, b: Ballot) -> bool {
    s.sent.contains(MessageKind::AckAcceptMsg(AckAccept { sender: a, ballot: b }))
}

/// Some proposer asked to accept `v` in ballot `b`.
pub open spec fn sent_accept<C>(s: ClusterView<C>, b: Ballot, v: C) -> bool {
    exists|a: u32| #[trigger] s.sent.contains(MessageKind::AcceptMsg(Accept { sender: a, ballot: b, command: v }))
}

/// A set of nodes that holds a majority of the cluster.
pub open spec fn is_quorum<C>(s: ClusterView<C>, q: Set<u32>) -> bool {
    &&& q.subset_of(s.nodes.dom())
    &&& q.len() >= quorum_of(s.total)
}

/// At ballot `c`, node `a` voted for `v`, or can no longer vote.
pub open spec fn voted_or_passed<C>(s: ClusterView<C>, a: u32, c: Ballot, v: C) -> bool {
    &&& sent_ack(s, a, c) ==> sent_accept(s, c, v)
    &&& !sent_ack(s, a, c) ==> s.nodes[a].acceptor.max_ballot > c
}

/// At ballot `c`, a quorum voted for `v` or can no longer vote: no command but
/// `v` can be chosen at `c`.
pub open spec fn settled_at<C>(s: ClusterView<C>, c: Ballot, v: C) -> bool {
    exists|q: Set<u32>|
        #![trigger is_quorum(s, q)]
        is_quorum(s, q) && forall|a: u32| #[trigger] q.contains(a) ==> voted_or_passed(s, a, c, v)
}

/// No command but `v` can be chosen at a ballot below `b`.
pub open spec fn safe_at<C>(s: ClusterView<C>, b: Ballot, v: C) -> bool {
    forall|c: Ballot| c < b ==> #[trigger] settled_at(s, c, v)
}

/// `v` was chosen at ballot `b`: it was proposed there and a quorum acknowledged it.
pub open spec fn chosen<C>(s: ClusterView<C>, b: Ballot, v: C) -> bool {
    &&& sent_accept(s, b, v)
    &&& exists|q: Set<u32>|
        #![trigger is_quorum(s, q)]
        is_quorum(s, q) && forall|a: u32| q.contains(a) ==> sent_ack(s, a, b)
}

/// The instance of every node is well formed and belongs to that node.
pub open spec fn nodes_ok<C>(s: ClusterView<C>) -> bool {
    &&& s.nodes.dom().finite()
    &&& s.nodes.dom().len() == s.total
    &&& s.total >= 1
    &&& forall|n: u32| #[trigger] s.nodes.contains_key(n) ==> {
        let v = s.nodes[n];
        &&& v.well_formed()
        &&& v.ballots_fit()
        &&& v.acceptor.my_id == n
        &&& v.proposer.proposer_id == n
        &&& v.proposer.total_nodes == s.total
        &&& v.proposer.quorum_size == quorum_of(s.total)
        &&& v.learner.quorum_size == quorum_of(s.total)
        &&& n + s.total <= u32::MAX
        &&& (v.acceptor.max_accepted matches Some(p) ==> p.ballot <= v.acceptor.max_ballot)
        &&& !(v.proposer.phase is Initial) ==> v.proposer.ballot == n + s.total
    }
}

/// What the proposer of node `n` has collected is backed by sent messages.
pub open spec fn proposer_ok<C>(s: ClusterView<C>, n: u32) -> bool {
    let p = s.nodes[n].proposer;
    match p.phase {
        ProposerPhase::Initial => true,
        ProposerPhase::Proposal { promised_by, max_accepted, value } => {
            &&& s.started.contains(n)
            &&& forall|b: Ballot, w: C| !s.sent.contains(MessageKind::AcceptMsg(Accept { sender: n, ballot: b, command: w }))
            &&& promised_by.no_duplicates()
            &&& forall|i: int| 0 <= i < promised_by.len() ==> {
                let q = #[trigger] promised_by[i];
                &&& s.nodes.contains_key(q)
                &&& s.nodes[q].acceptor.max_ballot >= p.ballot
                &&& forall|c: Ballot| c < p.ballot && #[trigger] sent_ack(s, q, c) ==> (max_accepted matches Some(
                    best,
                ) && c <= best.ballot)
            }
            &&& max_accepted matches Some(best) ==> best.ballot < p.ballot && sent_accept(s, best.ballot, best.command)
        },
        ProposerPhase::Accepting { accepted_by, value } => {
            &&& s.sent.contains(MessageKind::AcceptMsg(Accept { sender: n, ballot: p.ballot, command: value }))
            &&& accepted_by.no_duplicates()
            &&& forall|i: int| 0 <= i < accepted_by.len() ==> {
                let q = #[trigger] accepted_by[i];
                &&& s.nodes.contains_key(q)
                &&& sent_ack(s, q, p.ballot)
            }
        },
        ProposerPhase::Learning => true,
    }
}

/// The invariant of the instance across the cluster.
pub open spec fn cluster_inv<C>(s: ClusterView<C>) -> bool {
    &&& nodes_ok(s)
    &&& s.started.subset_of(s.nodes.dom())
    &&& forall|n: u32| #[trigger] s.nodes.contains_key(n) ==> proposer_ok(s, n)
    // nobody forwards a proposal inside the instance
    &&& forall|m: MessageKind<C>| #[trigger] s.sent.contains(m) ==> !(m is RequestCommandToLeader)
    // an Accept comes from the owner of its ballot, one command per proposer, and
    // no other command can have been chosen below its ballot
    &&& forall|a: u32, b: Ballot, v: C| #[trigger] s.sent.contains(
        MessageKind::AcceptMsg(Accept { sender: a, ballot: b, command: v }),
    ) ==> {
        &&& s.nodes.contains_key(a)
        &&& s.started.contains(a)
        &&& b == a + s.total
        &&& safe_at(s, b, v)
    }
    &&& forall|a: u32, b1: Ballot, v1: C, b2: Ballot, v2: C|
        #![trigger s.sent.contains(MessageKind::AcceptMsg(Accept { sender: a, ballot: b1, command: v1 })), s.sent.contains(MessageKind::AcceptMsg(Accept { sender: a, ballot: b2, command: v2 }))]
        s.sent.contains(MessageKind::AcceptMsg(Accept { sender: a, ballot: b1, command: v1 }))
            && s.sent.contains(MessageKind::AcceptMsg(Accept { sender: a, ballot: b2, command: v2 })) ==> v1
            == v2
    // a promise reports what its acceptor accepted, and it accepts nothing below
    // the promised ballot afterwards
    &&& forall|a: u32, b: Ballot, ma: Option<MaxAcceptedProposal<C>>| #[trigger] s.sent.contains(
        MessageKind::PromiseMsg(Promise { sender: a, ballot: b, max_accepted: ma }),
    ) ==> {
        &&& s.nodes.contains_key(a)
        &&& s.nodes[a].acceptor.max_ballot >= b
        &&& (ma matches Some(p) ==> p.ballot < b && sent_accept(s, p.ballot, p.command))
        &&& forall|c: Ballot| c < b && #[trigger] sent_ack(s, a, c) ==> (ma matches Some(p) && c <= p.ballot)
    }
    // an acceptor remembers the highest ballot it acknowledged
    &&& forall|a: u32, c: Ballot| #[trigger] sent_ack(s, a, c) ==> {
        &&& s.nodes.contains_key(a)
        &&& s.nodes[a].acceptor.max_accepted matches Some(p)
        &&& c <= p.ballot
    }
    &&& forall|a: u32| #[trigger] s.nodes.contains_key(a) ==> (s.nodes[a].acceptor.max_accepted matches Some(p)
        ==> sent_accept(s, p.ballot, p.command))
    // a Learn reports a chosen command
    &&& forall|a: u32, b: Ballot, v: C| #[trigger] s.sent.contains(
        MessageKind::LearnMsg(Learn { sender: a, ballot: b, command: v }),
    ) ==> chosen(s, b, v)
    // a learner learns a command that some Learn reported
    &&& forall|n: u32| #[trigger] s.nodes.contains_key(n) ==> (s.nodes[n].learner.value matches Some(v)
        ==> exists|a: u32, b: Ballot| #[trigger] s.sent.contains(
        MessageKind::LearnMsg(Learn { sender: a, ballot: b, command: v }),
    ))
}

/// A cluster of nodes `ids` before anything happened in the instance.
pub open spec fn initial_cluster<C>(ids: Set<u32>, total: u32, instance_id: u64) -> ClusterView<C> {
    ClusterView {
        nodes: Map::new(
            |n: u32| ids.contains(n),
            |n: u32| crate::multipaxos::synod::fresh_instance(n, quorum_of(total), total, instance_id),
        ),
        sent: Set::empty(),
        started: Set::empty(),
        total,
    }
}

/// Node `n`'s proposer starts Phase 1 for `v`.
pub open spec fn start_step<C>(s: ClusterView<C>, n: u32, v: C) -> ClusterView<C> {
    let (p, m) = new_prepare_step(s.nodes[n].proposer, v);
    ClusterView {
        nodes: s.nodes.insert(n, InstanceView { proposer: p, ..s.nodes[n] }),
        sent: s.sent.insert(m),
        started: s.started.insert(n),
        total: s.total,
    }
}

/// Node `n` handles message `m` and sends its answer.
pub open spec fn deliver_step<C>(s: ClusterView<C>, n: u32, m: MessageKind<C>) -> ClusterView<C> {
    let (v, r, _) = instance_step(s.nodes[n], m);
    ClusterView {
        nodes: s.nodes.insert(n, v),
        sent: match r {
            Some(x) => s.sent.insert(x),
            None => s.sent,
        },
        started: s.started,
        total: s.total,
    }
}

/// Node `n` restarts: its acceptor state is recovered from storage, its proposer
/// and learner start afresh. The acceptor is the one before the restart: every
/// change of an acceptor is saved before the instance answers
/// (`lemma_persisted_acceptor`), and a node restarting from storage restores
/// what was saved (`MultiPaxosNode::with_storage`, `lemma_recovery_after_accept`,
/// `lemma_recovery_after_promise`).
pub open spec fn restart_step<C>(s: ClusterView<C>, n: u32) -> ClusterView<C> {
    let old = s.nodes[n];
    ClusterView {
        nodes: s.nodes.insert(
            n,
            InstanceView {
                proposer: ProposerView {
                    phase: ProposerPhase::Initial,
                    ballot: n,
                    proposer_id: n,
                    quorum_size: quorum_of(s.total),
                    total_nodes: s.total,
                },
                learner: LearnerView {
                    value: None,
                    voters: Seq::empty(),
                    tally: Map::empty(),
                    ballot: 0,
                    quorum_size: quorum_of(s.total),
                },
                ..old
            },
        ),
        ..s
    }
}

/// Two majorities of the cluster share a node.
pub proof fn lemma_quorums_intersect<C>(s: ClusterView<C>, q1: Set<u32>, q2: Set<u32>)
    requires
        nodes_ok(s),
        is_quorum(s, q1),
        is_quorum(s, q2),
    ensures
        exists|a: u32| q1.contains(a) && q2.contains(a),
{
    lemma_len_subset(q1, s.nodes.dom());
    lemma_len_subset(q2, s.nodes.dom());
    lemma_len_subset(q1 + q2, s.nodes.dom());
    lemma_set_intersect_union_lens(q1, q2);
    if q1.intersect(q2).len() == 0 {
        assert(false);
    }
    let a = q1.intersect(q2).choose();
    assert(q1.intersect(q2).contains(a));
}

/// A ballot has one proposed command.
pub proof fn lemma_accept_unique<C>(s: ClusterView<C>, b: Ballot, v1: C, v2: C)
    requires
        cluster_inv(s),
        sent_accept(s, b, v1),
        sent_accept(s, b, v2),
    ensures
        v1 == v2,
{
    let a1 = choose|a: u32| #[trigger] s.sent.contains(MessageKind::AcceptMsg(Accept { sender: a, ballot: b, command: v1 }));
    let a2 = choose|a: u32| #[trigger] s.sent.contains(MessageKind::AcceptMsg(Accept { sender: a, ballot: b, command: v2 }));
    assert(a1 == a2);
}

/// Every command proposed at a ballot above one where `w` was chosen is `w`.
pub proof fn lemma_chosen_then_proposed<C>(s: ClusterView<C>, c: Ballot, w: C, b: Ballot, v: C)
    requires
        cluster_inv(s),
        chosen(s, c, w),
        sent_accept(s, b, v),
        c < b,
    ensures
        v == w,
{
    let a = choose|a: u32| #[trigger] s.sent.contains(MessageKind::AcceptMsg(Accept { sender: a, ballot: b, command: v }));
    assert(safe_at(s, b, v));
    assert(settled_at(s, c, v));
    let q = choose|q: Set<u32>| #![trigger is_quorum(s, q)] is_quorum(s, q) && forall|x: u32| q.contains(x) ==> voted_or_passed(s, x, c, v);
    let q0 = choose|q: Set<u32>| #![trigger is_quorum(s, q)] is_quorum(s, q) && forall|x: u32| q.contains(x) ==> sent_ack(s, x, c);
    lemma_quorums_intersect(s, q, q0);
    let x = choose|x: u32| q.contains(x) && q0.contains(x);
    assert(voted_or_passed(s, x, c, v));
    assert(sent_ack(s, x, c));
    lemma_accept_unique(s, c, v, w);
}

/// Agreement: two nodes that learned a command in the instance learned the same.
pub proof fn lemma_agreement<C>(s: ClusterView<C>, n1: u32, n2: u32)
    requires
        cluster_inv(s),
        s.nodes.contains_key(n1),
        s.nodes.contains_key(n2),
        s.nodes[n1].learner.value is Some,
        s.nodes[n2].learner.value is Some,
    ensures
        s.nodes[n1].learner.value == s.nodes[n2].learner.value,
{
    let v1 = s.nodes[n1].learner.value.unwrap();
    let v2 = s.nodes[n2].learner.value.unwrap();
    let (a1, b1) = choose|a: u32, b: Ballot| #[trigger] s.sent.contains(MessageKind::LearnMsg(Learn { sender: a, ballot: b, command: v1 }));
    let (a2, b2) = choose|a: u32, b: Ballot| #[trigger] s.sent.contains(MessageKind::LearnMsg(Learn { sender: a, ballot: b, command: v2 }));
    assert(chosen(s, b1, v1));
    assert(chosen(s, b2, v2));
    if b1 == b2 {
        lemma_accept_unique(s, b1, v1, v2);
    } else if b1 < b2 {
        lemma_chosen_then_proposed(s, b1, v1, b2, v2);
    } else {
        lemma_chosen_then_proposed(s, b2, v2, b1, v1);
    }
}


/// Before anything happened, the invariant holds.
pub proof fn lemma_initial_inv<C>(ids: Set<u32>, total: u32, instance_id: u64)
    requires
        ids.finite(),
        ids.len() == total,
        total >= 1,
        forall|n: u32| #[trigger] ids.contains(n) ==> n + total <= u32::MAX,
    ensures
        cluster_inv(initial_cluster::<C>(ids, total, instance_id)),
{
    let s = initial_cluster::<C>(ids, total, instance_id);
    assert(s.nodes.dom() =~= ids);
    assert forall|n: u32| #[trigger] s.nodes.contains_key(n) implies proposer_ok(s, n) by {}
}

/// Stable facts: with more messages sent, acceptors' ballots no lower, and new
/// acknowledgements only at ballots their acceptor had not passed, what was
/// settled stays settled and what was chosen stays chosen.
pub proof fn lemma_stable<C>(s: ClusterView<C>, t: ClusterView<C>)
    requires
        s.nodes.dom() == t.nodes.dom(),
        s.total == t.total,
        s.sent.subset_of(t.sent),
        forall|a: u32| #[trigger] s.nodes.contains_key(a) ==> t.nodes[a].acceptor.max_ballot
            >= s.nodes[a].acceptor.max_ballot,
        forall|a: u32, c: Ballot| #[trigger] sent_ack(t, a, c) && !sent_ack(s, a, c) ==> s.nodes.contains_key(a)
            && s.nodes[a].acceptor.max_ballot <= c,
    ensures
        forall|c: Ballot, v: C| #[trigger] settled_at(s, c, v) ==> settled_at(t, c, v),
        forall|b: Ballot, v: C| #[trigger] safe_at(s, b, v) ==> safe_at(t, b, v),
        forall|b: Ballot, v: C| #[trigger] chosen(s, b, v) ==> chosen(t, b, v),
        forall|b: Ballot, v: C| #[trigger] sent_accept(s, b, v) ==> sent_accept(t, b, v),
{
    assert forall|b: Ballot, v: C| #[trigger] sent_accept(s, b, v) implies sent_accept(t, b, v) by {
        let a = choose|a: u32| #[trigger] s.sent.contains(MessageKind::AcceptMsg(Accept { sender: a, ballot: b, command: v }));
        assert(t.sent.contains(MessageKind::AcceptMsg(Accept { sender: a, ballot: b, command: v })));
    }
    assert forall|c: Ballot, v: C| #[trigger] settled_at(s, c, v) implies settled_at(t, c, v) by {
        let q = choose|q: Set<u32>| #![trigger is_quorum(s, q)] is_quorum(s, q) && forall|a: u32| #[trigger] q.contains(a) ==> voted_or_passed(s, a, c, v);
        assert(is_quorum(t, q));
        assert forall|a: u32| #[trigger] q.contains(a) implies voted_or_passed(t, a, c, v) by {
            assert(voted_or_passed(s, a, c, v));
            if sent_ack(t, a, c) && !sent_ack(s, a, c) {
                assert(s.nodes[a].acceptor.max_ballot <= c);
            }
        }
    }
    assert forall|b: Ballot, v: C| #[trigger] safe_at(s, b, v) implies safe_at(t, b, v) by {
        assert forall|c: Ballot| c < b implies #[trigger] settled_at(t, c, v) by {
            assert(settled_at(s, c, v));
        }
    }
    assert forall|b: Ballot, v: C| #[trigger] chosen(s, b, v) implies chosen(t, b, v) by {
        let q = choose|q: Set<u32>| #![trigger is_quorum(s, q)] is_quorum(s, q) && forall|a: u32| q.contains(a) ==> sent_ack(s, a, b);
        assert(is_quorum(t, q));
        assert forall|a: u32| q.contains(a) implies sent_ack(t, a, b) by {
            assert(sent_ack(s, a, b));
        }
    }
}

/// What backs a proposer stays true when its proposer is unchanged, more messages
/// are sent but no Accept of its own, acceptors' ballots do not drop, and new
/// acknowledgements are only at ballots their acceptor had not passed.
pub proof fn lemma_proposer_ok_frame<C>(s: ClusterView<C>, t: ClusterView<C>, n: u32)
    requires
        proposer_ok(s, n),
        s.nodes.contains_key(n),
        t.nodes.contains_key(n),
        t.nodes[n].proposer == s.nodes[n].proposer,
        s.nodes.dom() == t.nodes.dom(),
        s.total == t.total,
        s.sent.subset_of(t.sent),
        s.started.subset_of(t.started),
        forall|b: Ballot, w: C| #[trigger] t.sent.contains(MessageKind::AcceptMsg(Accept { sender: n, ballot: b, command: w }))
            ==> s.sent.contains(MessageKind::AcceptMsg(Accept { sender: n, ballot: b, command: w })),
        forall|a: u32| #[trigger] s.nodes.contains_key(a) ==> t.nodes[a].acceptor.max_ballot
            >= s.nodes[a].acceptor.max_ballot,
        forall|a: u32, c: Ballot| #[trigger] sent_ack(t, a, c) && !sent_ack(s, a, c) ==> s.nodes.contains_key(a)
            && s.nodes[a].acceptor.max_ballot <= c,
    ensures
        proposer_ok(t, n),
{
    lemma_stable(s, t);
    let p = s.nodes[n].proposer;
    match p.phase {
        ProposerPhase::Proposal { promised_by, max_accepted, value } => {
            assert forall|i: int| 0 <= i < promised_by.len() implies {
                let q = #[trigger] promised_by[i];
                &&& t.nodes.contains_key(q)
                &&& t.nodes[q].acceptor.max_ballot >= p.ballot
                &&& forall|c: Ballot| c < p.ballot && #[trigger] sent_ack(t, q, c) ==> (max_accepted matches Some(
                    best,
                ) && c <= best.ballot)
            } by {
                let q = promised_by[i];
                assert(s.nodes.contains_key(q));
                assert(s.nodes[q].acceptor.max_ballot >= p.ballot);
                assert forall|c: Ballot| c < p.ballot && #[trigger] sent_ack(t, q, c) implies (max_accepted matches Some(
                    best,
                ) && c <= best.ballot) by {
                    if !sent_ack(s, q, c) {
                        assert(s.nodes[q].acceptor.max_ballot <= c);
                    }
                }
            }
            if let Some(best) = max_accepted {
                assert(sent_accept(s, best.ballot, best.command));
            }
        },
        ProposerPhase::Accepting { accepted_by, value } => {
            assert forall|i: int| 0 <= i < accepted_by.len() implies {
                let q = #[trigger] accepted_by[i];
                &&& t.nodes.contains_key(q)
                &&& sent_ack(t, q, p.ballot)
            } by {
                let q = accepted_by[i];
                assert(s.nodes.contains_key(q));
                assert(sent_ack(s, q, p.ballot));
            }
        },
        _ => {},
    }
}

/// A restart with the acceptor state recovered keeps the invariant.
pub proof fn lemma_restart_inv<C>(s: ClusterView<C>, n: u32)
    requires
        cluster_inv(s),
        s.nodes.contains_key(n),
    ensures
        cluster_inv(restart_step(s, n)),
{
    let t = restart_step(s, n);
    assert(t.nodes.dom() =~= s.nodes.dom());
    lemma_stable(s, t);
    assert forall|a: u32| #[trigger] t.nodes.contains_key(a) implies proposer_ok(t, a) by {
        if a != n {
            assert(s.nodes.contains_key(a));
            lemma_proposer_ok_frame(s, t, a);
        }
    }
    assert forall|a: u32, b: Ballot, ma: Option<MaxAcceptedProposal<C>>| #[trigger] t.sent.contains(
        MessageKind::PromiseMsg(Promise { sender: a, ballot: b, max_accepted: ma }),
    ) implies {
        &&& t.nodes.contains_key(a)
        &&& t.nodes[a].acceptor.max_ballot >= b
        &&& (ma matches Some(p) ==> p.ballot < b && sent_accept(t, p.ballot, p.command))
        &&& forall|c: Ballot| c < b && #[trigger] sent_ack(t, a, c) ==> (ma matches Some(p) && c <= p.ballot)
    } by {
        assert(s.sent.contains(MessageKind::PromiseMsg(Promise { sender: a, ballot: b, max_accepted: ma })));
        assert(s.nodes[a].acceptor == t.nodes[a].acceptor);
        if let Some(p) = ma {
            assert(sent_accept(s, p.ballot, p.command));
        }
        assert forall|c: Ballot| c < b && #[trigger] sent_ack(t, a, c) implies (ma matches Some(p) && c <= p.ballot) by {
            assert(sent_ack(s, a, c));
        }
    }
    assert forall|a: u32, c: Ballot| #[trigger] sent_ack(t, a, c) implies {
        &&& t.nodes.contains_key(a)
        &&& t.nodes[a].acceptor.max_accepted matches Some(p)
        &&& c <= p.ballot
    } by {
        assert(sent_ack(s, a, c));
        assert(s.nodes[a].acceptor == t.nodes[a].acceptor);
    }
    assert forall|a: u32| #[trigger] t.nodes.contains_key(a) implies (t.nodes[a].acceptor.max_accepted matches Some(p)
        ==> sent_accept(t, p.ballot, p.command)) by {
        assert(s.nodes[a].acceptor == t.nodes[a].acceptor);
    }
    assert forall|a: u32| #[trigger] t.nodes.contains_key(a) implies (t.nodes[a].learner.value matches Some(v)
        ==> exists|x: u32, b: Ballot| #[trigger] t.sent.contains(
        MessageKind::LearnMsg(Learn { sender: x, ballot: b, command: v }),
    )) by {
        if a != n {
            assert(s.nodes.contains_key(a));
        }
    }
}

/// A proposer that has not started starts Phase 1, keeping the invariant.
pub proof fn lemma_start_inv<C>(s: ClusterView<C>, n: u32, v: C)
    requires
        cluster_inv(s),
        s.nodes.contains_key(n),
        !s.started.contains(n),
        s.nodes[n].proposer.phase is Initial,
    ensures
        cluster_inv(start_step(s, n, v)),
{
    let t = start_step(s, n, v);
    assert(t.nodes.dom() =~= s.nodes.dom());
    lemma_stable(s, t);
    assert forall|b: Ballot, w: C| !t.sent.contains(MessageKind::AcceptMsg(Accept { sender: n, ballot: b, command: w })) by {
        if s.sent.contains(MessageKind::AcceptMsg(Accept { sender: n, ballot: b, command: w })) {
            assert(s.started.contains(n));
        }
    }
    assert forall|a: u32| #[trigger] t.nodes.contains_key(a) implies proposer_ok(t, a) by {
        if a != n {
            assert(s.nodes.contains_key(a));
            lemma_proposer_ok_frame(s, t, a);
        }
    }
    assert forall|a: u32, b: Ballot, ma: Option<MaxAcceptedProposal<C>>| #[trigger] t.sent.contains(
        MessageKind::PromiseMsg(Promise { sender: a, ballot: b, max_accepted: ma }),
    ) implies {
        &&& t.nodes.contains_key(a)
        &&& t.nodes[a].acceptor.max_ballot >= b
        &&& (ma matches Some(p) ==> p.ballot < b && sent_accept(t, p.ballot, p.command))
        &&& forall|c: Ballot| c < b && #[trigger] sent_ack(t, a, c) ==> (ma matches Some(p) && c <= p.ballot)
    } by {
        assert(s.sent.contains(MessageKind::PromiseMsg(Promise { sender: a, ballot: b, max_accepted: ma })));
        assert(s.nodes[a].acceptor == t.nodes[a].acceptor);
        assert forall|c: Ballot| c < b && #[trigger] sent_ack(t, a, c) implies (ma matches Some(p) && c <= p.ballot) by {
            assert(sent_ack(s, a, c));
        }
    }
    assert forall|a: u32, c: Ballot| #[trigger] sent_ack(t, a, c) implies {
        &&& t.nodes.contains_key(a)
        &&& t.nodes[a].acceptor.max_accepted matches Some(p)
        &&& c <= p.ballot
    } by {
        assert(sent_ack(s, a, c));
        assert(s.nodes[a].acceptor == t.nodes[a].acceptor);
    }
    assert forall|a: u32| #[trigger] t.nodes.contains_key(a) implies (t.nodes[a].acceptor.max_accepted matches Some(p)
        ==> sent_accept(t, p.ballot, p.command)) by {
        assert(s.nodes[a].acceptor == t.nodes[a].acceptor);
    }
    assert forall|a: u32, b: Ballot, w: C| #[trigger] t.sent.contains(
        MessageKind::AcceptMsg(Accept { sender: a, ballot: b, command: w }),
    ) implies {
        &&& t.nodes.contains_key(a)
        &&& t.started.contains(a)
        &&& b == a + t.total
        &&& safe_at(t, b, w)
    } by {
        assert(s.sent.contains(MessageKind::AcceptMsg(Accept { sender: a, ballot: b, command: w })));
    }
    assert forall|a: u32, b: Ballot, w: C| #[trigger] t.sent.contains(
        MessageKind::LearnMsg(Learn { sender: a, ballot: b, command: w }),
    ) implies chosen(t, b, w) by {
        assert(s.sent.contains(MessageKind::LearnMsg(Learn { sender: a, ballot: b, command: w })));
    }
    assert forall|a: u32| #[trigger] t.nodes.contains_key(a) implies (t.nodes[a].learner.value matches Some(w)
        ==> exists|x: u32, b: Ballot| #[trigger] t.sent.contains(
        MessageKind::LearnMsg(Learn { sender: x, ballot: b, command: w }),
    )) by {
        if t.nodes[a].learner.value is Some {
            let w = t.nodes[a].learner.value.unwrap();
            assert(s.nodes.contains_key(a));
            let (x, b) = choose|x: u32, b: Ballot| #[trigger] s.sent.contains(
                MessageKind::LearnMsg(Learn { sender: x, ballot: b, command: w }));
            assert(t.sent.contains(MessageKind::LearnMsg(Learn { sender: x, ballot: b, command: w })));
        }
    }
}

/// The invariant after node `n` handled a message: what stays true of the other
/// nodes and of the messages sent before, given what the case shows of node `n`
/// and of its answer `new`.
proof fn lemma_step_frame<C>(s: ClusterView<C>, t: ClusterView<C>, n: u32, new: Option<MessageKind<C>>)
    requires
        cluster_inv(s),
        s.nodes.contains_key(n),
        t.nodes.dom() == s.nodes.dom(),
        t.total == s.total,
        t.started == s.started,
        t.sent == (match new {
            Some(x) => s.sent.insert(x),
            None => s.sent,
        }),
        forall|a: u32| #[trigger] s.nodes.contains_key(a) && a != n ==> t.nodes[a] == s.nodes[a],
        nodes_ok(t),
        proposer_ok(t, n),
        t.nodes[n].acceptor.max_ballot >= s.nodes[n].acceptor.max_ballot,
        s.nodes[n].acceptor.max_accepted matches Some(p) ==> (t.nodes[n].acceptor.max_accepted matches Some(q)
            && p.ballot <= q.ballot),
        t.nodes[n].acceptor.max_accepted matches Some(p) ==> sent_accept(t, p.ballot, p.command),
        t.nodes[n].learner.value matches Some(v) ==> exists|a: u32, b: Ballot| #[trigger] t.sent.contains(
            MessageKind::LearnMsg(Learn { sender: a, ballot: b, command: v }),
        ),
        forall|a: u32, c: Ballot| #[trigger] sent_ack(t, a, c) && !sent_ack(s, a, c) ==> a == n
            && s.nodes[n].acceptor.max_ballot <= c && (t.nodes[n].acceptor.max_accepted matches Some(q) && c
            <= q.ballot),
        new matches Some(x) ==> !(x is RequestCommandToLeader),
        new matches Some(MessageKind::AcceptMsg(acc)) ==> {
            &&& acc.sender == n
            &&& s.started.contains(n)
            &&& acc.ballot == n + s.total
            &&& safe_at(t, acc.ballot, acc.command)
            &&& forall|b: Ballot, w: C| #[trigger] s.sent.contains(MessageKind::AcceptMsg(Accept { sender: n, ballot: b, command: w })) ==> w == acc.command
        },
        new matches Some(MessageKind::PromiseMsg(pr)) ==> {
            &&& pr.sender == n
            &&& t.nodes[n].acceptor.max_ballot >= pr.ballot
            &&& (pr.max_accepted matches Some(p) ==> p.ballot < pr.ballot && sent_accept(t, p.ballot, p.command))
            &&& forall|c: Ballot| c < pr.ballot && #[trigger] sent_ack(t, n, c) ==> (pr.max_accepted matches Some(p)
                && c <= p.ballot)
        },
        new matches Some(MessageKind::LearnMsg(l)) ==> chosen(t, l.ballot, l.command),
    ensures
        cluster_inv(t),
{
    lemma_stable(s, t);
    assert(s.sent.subset_of(t.sent));
    assert forall|a: u32| #[trigger] s.nodes.contains_key(a) implies t.nodes[a].acceptor.max_ballot
        >= s.nodes[a].acceptor.max_ballot by {}
    assert forall|a: u32| #[trigger] t.nodes.contains_key(a) implies proposer_ok(t, a) by {
        if a != n {
            assert(s.nodes.contains_key(a));
            assert forall|b: Ballot, w: C| #[trigger] t.sent.contains(MessageKind::AcceptMsg(Accept { sender: a, ballot: b, command: w }))
                implies s.sent.contains(MessageKind::AcceptMsg(Accept { sender: a, ballot: b, command: w })) by {}
            lemma_proposer_ok_frame(s, t, a);
        }
    }
    assert forall|m: MessageKind<C>| #[trigger] t.sent.contains(m) implies !(m is RequestCommandToLeader) by {
        if s.sent.contains(m) {
        }
    }
    assert forall|a: u32, b: Ballot, v: C| #[trigger] t.sent.contains(
        MessageKind::AcceptMsg(Accept { sender: a, ballot: b, command: v }),
    ) implies {
        &&& t.nodes.contains_key(a)
        &&& t.started.contains(a)
        &&& b == a + t.total
        &&& safe_at(t, b, v)
    } by {
        if s.sent.contains(MessageKind::AcceptMsg(Accept { sender: a, ballot: b, command: v })) {
            assert(safe_at(s, b, v));
        }
    }
    assert forall|a: u32, b1: Ballot, v1: C, b2: Ballot, v2: C|
        #![trigger t.sent.contains(MessageKind::AcceptMsg(Accept { sender: a, ballot: b1, command: v1 })), t.sent.contains(MessageKind::AcceptMsg(Accept { sender: a, ballot: b2, command: v2 }))]
        t.sent.contains(MessageKind::AcceptMsg(Accept { sender: a, ballot: b1, command: v1 }))
            && t.sent.contains(MessageKind::AcceptMsg(Accept { sender: a, ballot: b2, command: v2 })) implies v1
            == v2 by {
        let m1 = MessageKind::AcceptMsg(Accept { sender: a, ballot: b1, command: v1 });
        let m2 = MessageKind::AcceptMsg(Accept { sender: a, ballot: b2, command: v2 });
        if s.sent.contains(m1) && s.sent.contains(m2) {
        } else if s.sent.contains(m1) {
            assert(new == Some(m2));
        } else if s.sent.contains(m2) {
            assert(new == Some(m1));
        }
    }
    assert forall|a: u32, b: Ballot, ma: Option<MaxAcceptedProposal<C>>| #[trigger] t.sent.contains(
        MessageKind::PromiseMsg(Promise { sender: a, ballot: b, max_accepted: ma }),
    ) implies {
        &&& t.nodes.contains_key(a)
        &&& t.nodes[a].acceptor.max_ballot >= b
        &&& (ma matches Some(p) ==> p.ballot < b && sent_accept(t, p.ballot, p.command))
        &&& forall|c: Ballot| c < b && #[trigger] sent_ack(t, a, c) ==> (ma matches Some(p) && c <= p.ballot)
    } by {
        let m = MessageKind::PromiseMsg(Promise { sender: a, ballot: b, max_accepted: ma });
        if s.sent.contains(m) {
            if let Some(p) = ma {
                assert(sent_accept(s, p.ballot, p.command));
            }
            assert forall|c: Ballot| c < b && #[trigger] sent_ack(t, a, c) implies (ma matches Some(p) && c <= p.ballot) by {
                if !sent_ack(s, a, c) {
                    assert(s.nodes[a].acceptor.max_ballot <= c);
                }
            }
        }
    }
    assert forall|a: u32, c: Ballot| #[trigger] sent_ack(t, a, c) implies {
        &&& t.nodes.contains_key(a)
        &&& t.nodes[a].acceptor.max_accepted matches Some(p)
        &&& c <= p.ballot
    } by {
        if sent_ack(s, a, c) {
            if a == n {
                assert(s.nodes[n].acceptor.max_accepted is Some);
            }
        }
    }
    assert forall|a: u32| #[trigger] t.nodes.contains_key(a) implies (t.nodes[a].acceptor.max_accepted matches Some(p)
        ==> sent_accept(t, p.ballot, p.command)) by {
        if a != n {
            assert(s.nodes.contains_key(a));
            if let Some(p) = s.nodes[a].acceptor.max_accepted {
                assert(sent_accept(s, p.ballot, p.command));
            }
        }
    }
    assert forall|a: u32, b: Ballot, v: C| #[trigger] t.sent.contains(
        MessageKind::LearnMsg(Learn { sender: a, ballot: b, command: v }),
    ) implies chosen(t, b, v) by {
        if s.sent.contains(MessageKind::LearnMsg(Learn { sender: a, ballot: b, command: v })) {
            assert(chosen(s, b, v));
        }
    }
    assert forall|a: u32| #[trigger] t.nodes.contains_key(a) implies (t.nodes[a].learner.value matches Some(v)
        ==> exists|x: u32, b: Ballot| #[trigger] t.sent.contains(
        MessageKind::LearnMsg(Learn { sender: x, ballot: b, command: v }),
    )) by {
        if a != n && t.nodes[a].learner.value is Some {
            let v = t.nodes[a].learner.value.unwrap();
            assert(s.nodes.contains_key(a));
            let (x, b) = choose|x: u32, b: Ballot| #[trigger] s.sent.contains(
                MessageKind::LearnMsg(Learn { sender: x, ballot: b, command: v }));
            assert(t.sent.contains(MessageKind::LearnMsg(Learn { sender: x, ballot: b, command: v })));
        }
    }
}

/// A learner that did not change still learned a command that some Learn reported.
proof fn lemma_learner_frame<C>(s: ClusterView<C>, t: ClusterView<C>, n: u32)
    requires
        cluster_inv(s),
        s.nodes.contains_key(n),
        t.nodes[n].learner == s.nodes[n].learner,
        s.sent.subset_of(t.sent),
    ensures
        t.nodes[n].learner.value matches Some(v) ==> exists|a: u32, b: Ballot| #[trigger] t.sent.contains(
            MessageKind::LearnMsg(Learn { sender: a, ballot: b, command: v }),
        ),
{
    if t.nodes[n].learner.value is Some {
        let v = t.nodes[n].learner.value.unwrap();
        let (x, b) = choose|x: u32, b: Ballot| #[trigger] s.sent.contains(
            MessageKind::LearnMsg(Learn { sender: x, ballot: b, command: v }));
        assert(t.sent.contains(MessageKind::LearnMsg(Learn { sender: x, ballot: b, command: v })));
    }
}

/// An acceptor's answer to a Prepare keeps the invariant.
proof fn lemma_deliver_prepare<C>(s: ClusterView<C>, n: u32, pm: Prepare)
    requires
        cluster_inv(s),
        s.nodes.contains_key(n),
    ensures
        cluster_inv(deliver_step(s, n, MessageKind::PrepareMsg(pm))),
{
    let m = MessageKind::PrepareMsg(pm);
    let t = deliver_step(s, n, m);
    let v0 = s.nodes[n];
    lemma_instance_step_well_formed(v0, m);
    let (a1, r) = prepare_step(v0.acceptor, pm);
    assert(t.nodes.dom() =~= s.nodes.dom());
    assert(nodes_ok(t)) by {
        assert forall|x: u32| #[trigger] t.nodes.contains_key(x) implies {
            let v = t.nodes[x];
            &&& v.well_formed()
            &&& v.ballots_fit()
            &&& v.acceptor.my_id == x
            &&& v.proposer.proposer_id == x
            &&& v.proposer.total_nodes == t.total
            &&& v.proposer.quorum_size == quorum_of(t.total)
            &&& v.learner.quorum_size == quorum_of(t.total)
            &&& x + t.total <= u32::MAX
            &&& (v.acceptor.max_accepted matches Some(p) ==> p.ballot <= v.acceptor.max_ballot)
            &&& !(v.proposer.phase is Initial) ==> v.proposer.ballot == x + t.total
        } by {
            assert(s.nodes.contains_key(x));
        }
    }
    lemma_stable(s, t);
    lemma_proposer_ok_frame(s, t, n);
    if let Some(p) = v0.acceptor.max_accepted {
        assert(sent_accept(s, p.ballot, p.command));
    }
    if r is PromiseMsg {
        assert forall|c: Ballot| c < pm.ballot && #[trigger] sent_ack(t, n, c) implies (v0.acceptor.max_accepted matches Some(p)
            && c <= p.ballot) by {
            assert(sent_ack(s, n, c));
        }
    }
    lemma_learner_frame(s, t, n);
    lemma_step_frame(s, t, n, Some(r));
}

/// An acceptor's answer to an Accept keeps the invariant.
proof fn lemma_deliver_accept<C>(s: ClusterView<C>, n: u32, am: Accept<C>)
    requires
        cluster_inv(s),
        s.nodes.contains_key(n),
        s.sent.contains(MessageKind::AcceptMsg(am)),
    ensures
        cluster_inv(deliver_step(s, n, MessageKind::AcceptMsg(am))),
{
    let m = MessageKind::AcceptMsg(am);
    let t = deliver_step(s, n, m);
    let v0 = s.nodes[n];
    lemma_instance_step_well_formed(v0, m);
    let (a1, r) = accept_step(v0.acceptor, am);
    assert(t.nodes.dom() =~= s.nodes.dom());
    assert(nodes_ok(t)) by {
        assert forall|x: u32| #[trigger] t.nodes.contains_key(x) implies {
            let v = t.nodes[x];
            &&& v.well_formed()
            &&& v.ballots_fit()
            &&& v.acceptor.my_id == x
            &&& v.proposer.proposer_id == x
            &&& v.proposer.total_nodes == t.total
            &&& v.proposer.quorum_size == quorum_of(t.total)
            &&& v.learner.quorum_size == quorum_of(t.total)
            &&& x + t.total <= u32::MAX
            &&& (v.acceptor.max_accepted matches Some(p) ==> p.ballot <= v.acceptor.max_ballot)
            &&& !(v.proposer.phase is Initial) ==> v.proposer.ballot == x + t.total
        } by {
            assert(s.nodes.contains_key(x));
        }
    }
    assert(sent_accept(s, am.ballot, am.command)) by {
        assert(s.sent.contains(MessageKind::AcceptMsg(Accept { sender: am.sender, ballot: am.ballot, command: am.command })));
    }
    assert forall|a: u32, c: Ballot| #[trigger] sent_ack(t, a, c) && !sent_ack(s, a, c) implies s.nodes.contains_key(a)
        && s.nodes[a].acceptor.max_ballot <= c by {
        assert(r == MessageKind::<C>::AckAcceptMsg(AckAccept { sender: a, ballot: c }));
    }
    lemma_stable(s, t);
    lemma_proposer_ok_frame(s, t, n);
    lemma_learner_frame(s, t, n);
    lemma_step_frame(s, t, n, Some(r));
}

/// The promises collected for ballot `b` from the nodes of `ps`, with `best` the
/// highest proposal they reported.
pub open spec fn promises_back<C>(s: ClusterView<C>, ps: Seq<u32>, b: Ballot, best: Option<MaxAcceptedProposal<C>>) -> bool {
    forall|i: int| 0 <= i < ps.len() ==> {
        let q = #[trigger] ps[i];
        &&& s.nodes.contains_key(q)
        &&& s.nodes[q].acceptor.max_ballot >= b
        &&& forall|c: Ballot| c < b && #[trigger] sent_ack(s, q, c) ==> (best matches Some(d) && c <= d.ballot)
    }
}

/// Phase 2 with the command of the highest reported proposal (or any command when
/// none was reported) is safe once a quorum promised the ballot.
proof fn lemma_proposal_safe<C>(s: ClusterView<C>, ps: Seq<u32>, b: Ballot, best: Option<MaxAcceptedProposal<C>>, own: C)
    requires
        nodes_ok(s),
        promises_back(s, ps, b, best),
        ps.no_duplicates(),
        ps.len() >= quorum_of(s.total),
        best matches Some(d) ==> d.ballot < b && sent_accept(s, d.ballot, d.command) && safe_at(s, d.ballot, d.command),
    ensures
        safe_at(s, b, chosen_command(best, own)),
{
    let cmd = chosen_command(best, own);
    let q = ps.to_set();
    ps.unique_seq_to_set();
    assert(q.subset_of(s.nodes.dom())) by {
        assert forall|x: u32| q.contains(x) implies s.nodes.dom().contains(x) by {
            let i = choose|i: int| 0 <= i < ps.len() && ps[i] == x;
            assert(s.nodes.contains_key(ps[i]));
        }
    }
    assert(is_quorum(s, q));
    assert forall|c: Ballot| c < b implies #[trigger] settled_at(s, c, cmd) by {
        let below = match best {
            Some(d) => c < d.ballot,
            None => false,
        };
        if below {
            let d = best.unwrap();
            assert(safe_at(s, d.ballot, d.command));
            assert(settled_at(s, c, d.command));
        } else {
            assert forall|x: u32| #[trigger] q.contains(x) implies voted_or_passed(s, x, c, cmd) by {
                let i = choose|i: int| 0 <= i < ps.len() && ps[i] == x;
                assert(s.nodes.contains_key(ps[i]));
                if sent_ack(s, x, c) {
                    let d = best.unwrap();
                    assert(c <= d.ballot);
                    assert(c == d.ballot);
                }
            }
        }
    }
}

/// A proposer's handling of a Promise keeps the invariant.
proof fn lemma_deliver_promise<C>(s: ClusterView<C>, n: u32, pr: Promise<C>)
    requires
        cluster_inv(s),
        s.nodes.contains_key(n),
        s.sent.contains(MessageKind::PromiseMsg(pr)),
    ensures
        cluster_inv(deliver_step(s, n, MessageKind::PromiseMsg(pr))),
{
    let m = MessageKind::PromiseMsg(pr);
    let t = deliver_step(s, n, m);
    let v0 = s.nodes[n];
    let p0 = v0.proposer;
    lemma_instance_step_well_formed(v0, m);
    let (p1, r) = proposer_step(p0, m);
    assert(t.nodes.dom() =~= s.nodes.dom());
    assert(nodes_ok(t)) by {
        assert forall|x: u32| #[trigger] t.nodes.contains_key(x) implies {
            let v = t.nodes[x];
            &&& v.well_formed()
            &&& v.ballots_fit()
            &&& v.acceptor.my_id == x
            &&& v.proposer.proposer_id == x
            &&& v.proposer.total_nodes == t.total
            &&& v.proposer.quorum_size == quorum_of(t.total)
            &&& v.learner.quorum_size == quorum_of(t.total)
            &&& x + t.total <= u32::MAX
            &&& (v.acceptor.max_accepted matches Some(p) ==> p.ballot <= v.acceptor.max_ballot)
            &&& !(v.proposer.phase is Initial) ==> v.proposer.ballot == x + t.total
        } by {
            assert(s.nodes.contains_key(x));
        }
    }
    lemma_stable(s, t);
    lemma_learner_frame(s, t, n);
    assert(proposer_ok(s, n));
    match p0.phase {
        ProposerPhase::Proposal { promised_by, max_accepted, value } => {
            if pr.ballot != p0.ballot || promised_by.contains(pr.sender) {
                lemma_proposer_ok_frame(s, t, n);
                lemma_step_frame(s, t, n, r);
            } else {
                let promised = promised_by.push(pr.sender);
                let best = higher_proposal(max_accepted, pr.max_accepted);
                lemma_higher_proposal(max_accepted, pr.max_accepted);
                assert(promised.no_duplicates()) by {
                    assert forall|i: int, j: int| 0 <= i < promised.len() && 0 <= j < promised.len() && i != j implies promised[i]
                        != promised[j] by {
                        if i == promised.len() - 1 && j < promised.len() - 1 {
                            assert(promised_by[j] == promised[j]);
                        } else if j == promised.len() - 1 && i < promised.len() - 1 {
                            assert(promised_by[i] == promised[i]);
                        }
                    }
                }
                if let Some(d) = pr.max_accepted {
                    assert(sent_accept(s, d.ballot, d.command));
                }
                assert(promises_back(t, promised, p0.ballot, best)) by {
                    assert forall|i: int| 0 <= i < promised.len() implies {
                        let q = #[trigger] promised[i];
                        &&& t.nodes.contains_key(q)
                        &&& t.nodes[q].acceptor.max_ballot >= p0.ballot
                        &&& forall|c: Ballot| c < p0.ballot && #[trigger] sent_ack(t, q, c) ==> (best matches Some(d) && c <= d.ballot)
                    } by {
                        let q = promised[i];
                        if i < promised_by.len() {
                            assert(promised_by[i] == q);
                            assert(s.nodes.contains_key(q));
                            assert forall|c: Ballot| c < p0.ballot && #[trigger] sent_ack(t, q, c) implies (best matches Some(d)
                                && c <= d.ballot) by {
                                assert(sent_ack(s, q, c));
                            }
                        } else {
                            assert(q == pr.sender);
                            assert forall|c: Ballot| c < p0.ballot && #[trigger] sent_ack(t, q, c) implies (best matches Some(d)
                                && c <= d.ballot) by {
                                assert(sent_ack(s, q, c));
                            }
                        }
                    }
                }
                if promised.len() >= p0.quorum_size {
                    let cmd = chosen_command(best, value);
                    let acc = Accept { sender: p0.proposer_id, ballot: p0.ballot, command: cmd };
                    if let Some(d) = best {
                        assert(sent_accept(s, d.ballot, d.command));
                        let a2 = choose|a: u32| #[trigger] s.sent.contains(MessageKind::AcceptMsg(Accept { sender: a, ballot: d.ballot, command: d.command }));
                        assert(safe_at(s, d.ballot, d.command));
                    }
                    lemma_proposal_safe(t, promised, p0.ballot, best, value);
                    assert forall|b: Ballot, w: C| #[trigger] s.sent.contains(MessageKind::AcceptMsg(Accept { sender: n, ballot: b, command: w }))
                        implies w == acc.command by {}
                    assert(t.sent.contains(MessageKind::AcceptMsg(acc)));
                    assert(proposer_ok(t, n));
                    lemma_step_frame(s, t, n, r);
                } else {
                    assert(proposer_ok(t, n)) by {
                        if let Some(d) = best {
                            assert(sent_accept(t, d.ballot, d.command));
                        }
                    }
                    lemma_step_frame(s, t, n, r);
                }
            }
        },
        _ => {
            lemma_proposer_ok_frame(s, t, n);
            lemma_step_frame(s, t, n, r);
        },
    }
}

/// A proposer's handling of an acknowledgement keeps the invariant.
proof fn lemma_deliver_ack<C>(s: ClusterView<C>, n: u32, ack: AckAccept)
    requires
        cluster_inv(s),
        s.nodes.contains_key(n),
        s.sent.contains(MessageKind::AckAcceptMsg(ack)),
    ensures
        cluster_inv(deliver_step(s, n, MessageKind::AckAcceptMsg(ack))),
{
    let m = MessageKind::AckAcceptMsg(ack);
    let t = deliver_step(s, n, m);
    let v0 = s.nodes[n];
    let p0 = v0.proposer;
    lemma_instance_step_well_formed(v0, m);
    let (p1, r) = proposer_step(p0, m);
    assert(t.nodes.dom() =~= s.nodes.dom());
    assert(nodes_ok(t)) by {
        assert forall|x: u32| #[trigger] t.nodes.contains_key(x) implies {
            let v = t.nodes[x];
            &&& v.well_formed()
            &&& v.ballots_fit()
            &&& v.acceptor.my_id == x
            &&& v.proposer.proposer_id == x
            &&& v.proposer.total_nodes == t.total
            &&& v.proposer.quorum_size == quorum_of(t.total)
            &&& v.learner.quorum_size == quorum_of(t.total)
            &&& x + t.total <= u32::MAX
            &&& (v.acceptor.max_accepted matches Some(p) ==> p.ballot <= v.acceptor.max_ballot)
            &&& !(v.proposer.phase is Initial) ==> v.proposer.ballot == x + t.total
        } by {
            assert(s.nodes.contains_key(x));
        }
    }
    lemma_stable(s, t);
    lemma_learner_frame(s, t, n);
    assert(proposer_ok(s, n));
    assert(sent_ack(s, ack.sender, ack.ballot));
    match p0.phase {
        ProposerPhase::Accepting { accepted_by, value } => {
            if ack.ballot != p0.ballot || accepted_by.contains(ack.sender) {
                lemma_proposer_ok_frame(s, t, n);
                lemma_step_frame(s, t, n, r);
            } else {
                let accepted = accepted_by.push(ack.sender);
                assert(accepted.no_duplicates()) by {
                    assert forall|i: int, j: int| 0 <= i < accepted.len() && 0 <= j < accepted.len() && i != j implies accepted[i]
                        != accepted[j] by {
                        if i == accepted.len() - 1 && j < accepted.len() - 1 {
                            assert(accepted_by[j] == accepted[j]);
                        } else if j == accepted.len() - 1 && i < accepted.len() - 1 {
                            assert(accepted_by[i] == accepted[i]);
                        }
                    }
                }
                assert forall|i: int| 0 <= i < accepted.len() implies {
                    let q = #[trigger] accepted[i];
                    &&& t.nodes.contains_key(q)
                    &&& sent_ack(t, q, p0.ballot)
                } by {
                    if i < accepted_by.len() {
                        assert(accepted_by[i] == accepted[i]);
                    }
                }
                if accepted.len() >= p0.quorum_size {
                    let q = accepted.to_set();
                    accepted.unique_seq_to_set();
                    assert forall|x: u32| q.contains(x) implies t.nodes.dom().contains(x) && sent_ack(t, x, p0.ballot) by {
                        let i = choose|i: int| 0 <= i < accepted.len() && accepted[i] == x;
                        assert(t.nodes.contains_key(accepted[i]));
                    }
                    assert(is_quorum(t, q));
                    assert(sent_accept(t, p0.ballot, value)) by {
                        assert(t.sent.contains(MessageKind::AcceptMsg(Accept { sender: n, ballot: p0.ballot, command: value })));
                    }
                    assert(chosen(t, p0.ballot, value));
                    lemma_step_frame(s, t, n, r);
                } else {
                    assert(proposer_ok(t, n));
                    lemma_step_frame(s, t, n, r);
                }
            }
        },
        _ => {
            lemma_proposer_ok_frame(s, t, n);
            lemma_step_frame(s, t, n, r);
        },
    }
}

/// A learner's handling of a Learn keeps the invariant.
proof fn lemma_deliver_learn<C>(s: ClusterView<C>, n: u32, l: Learn<C>)
    requires
        cluster_inv(s),
        s.nodes.contains_key(n),
        s.sent.contains(MessageKind::LearnMsg(l)),
    ensures
        cluster_inv(deliver_step(s, n, MessageKind::LearnMsg(l))),
{
    let m = MessageKind::LearnMsg(l);
    let t = deliver_step(s, n, m);
    let v0 = s.nodes[n];
    lemma_instance_step_well_formed(v0, m);
    let r = instance_step(v0, m).1;
    assert(t.nodes.dom() =~= s.nodes.dom());
    assert(nodes_ok(t)) by {
        assert forall|x: u32| #[trigger] t.nodes.contains_key(x) implies {
            let v = t.nodes[x];
            &&& v.well_formed()
            &&& v.ballots_fit()
            &&& v.acceptor.my_id == x
            &&& v.proposer.proposer_id == x
            &&& v.proposer.total_nodes == t.total
            &&& v.proposer.quorum_size == quorum_of(t.total)
            &&& v.learner.quorum_size == quorum_of(t.total)
            &&& x + t.total <= u32::MAX
            &&& (v.acceptor.max_accepted matches Some(p) ==> p.ballot <= v.acceptor.max_ballot)
            &&& !(v.proposer.phase is Initial) ==> v.proposer.ballot == x + t.total
        } by {
            assert(s.nodes.contains_key(x));
        }
    }
    lemma_stable(s, t);
    assert(chosen(s, l.ballot, l.command));
    lemma_proposer_ok_frame(s, t, n);
    if t.nodes[n].learner.value is Some {
        let w = t.nodes[n].learner.value.unwrap();
        if v0.learner.value is Some {
            let (x, b) = choose|x: u32, b: Ballot| #[trigger] s.sent.contains(
                MessageKind::LearnMsg(Learn { sender: x, ballot: b, command: w }));
            assert(t.sent.contains(MessageKind::LearnMsg(Learn { sender: x, ballot: b, command: w })));
        } else {
            assert(w == l.command);
            assert(t.sent.contains(MessageKind::LearnMsg(Learn { sender: l.sender, ballot: l.ballot, command: w })));
        }
    }
    lemma_step_frame(s, t, n, r);
}

/// Handling a message that changes nothing keeps the invariant.
proof fn lemma_deliver_unchanged<C>(s: ClusterView<C>, n: u32, m: MessageKind<C>)
    requires
        cluster_inv(s),
        s.nodes.contains_key(n),
        instance_step(s.nodes[n], m).0 == s.nodes[n],
        instance_step(s.nodes[n], m).1 is None,
    ensures
        cluster_inv(deliver_step(s, n, m)),
{
    let t = deliver_step(s, n, m);
    assert(t.nodes =~= s.nodes);
    assert(t == s);
}

/// Whatever message ever sent a node handles, the invariant is kept.
pub proof fn lemma_deliver_inv<C>(s: ClusterView<C>, n: u32, m: MessageKind<C>)
    requires
        cluster_inv(s),
        s.nodes.contains_key(n),
        s.sent.contains(m),
    ensures
        cluster_inv(deliver_step(s, n, m)),
{
    match m {
        MessageKind::PrepareMsg(pm) => lemma_deliver_prepare(s, n, pm),
        MessageKind::AcceptMsg(am) => lemma_deliver_accept(s, n, am),
        MessageKind::PromiseMsg(pr) => lemma_deliver_promise(s, n, pr),
        MessageKind::AckAcceptMsg(ack) => lemma_deliver_ack(s, n, ack),
        MessageKind::LearnMsg(l) => lemma_deliver_learn(s, n, l),
        MessageKind::RequestCommandToLeader { .. } => {},
        _ => lemma_deliver_unchanged(s, n, m),
    }
}

/// One step of the cluster: a proposer starts, a node handles a sent message, or
/// a node restarts with its saved acceptor state.
pub open spec fn cluster_next<C>(s: ClusterView<C>, t: ClusterView<C>) -> bool {
    ||| exists|n: u32, v: C|
        #![trigger start_step(s, n, v)]
        s.nodes.contains_key(n) && !s.started.contains(n) && s.nodes[n].proposer.phase is Initial && t
            == start_step(s, n, v)
    ||| exists|n: u32, m: MessageKind<C>|
        #![trigger deliver_step(s, n, m)]
        s.nodes.contains_key(n) && s.sent.contains(m) && t == deliver_step(s, n, m)
    ||| exists|n: u32| #![trigger restart_step(s, n)] s.nodes.contains_key(n) && t == restart_step(s, n)
}

/// Every step keeps the invariant.
pub proof fn lemma_next_inv<C>(s: ClusterView<C>, t: ClusterView<C>)
    requires
        cluster_inv(s),
        cluster_next(s, t),
    ensures
        cluster_inv(t),
{
    if exists|n: u32, v: C|
        #![trigger start_step(s, n, v)]
        s.nodes.contains_key(n) && !s.started.contains(n) && s.nodes[n].proposer.phase is Initial && t
            == start_step(s, n, v) {
        let (n, v) = choose|n: u32, v: C|
            #![trigger start_step(s, n, v)]
            s.nodes.contains_key(n) && !s.started.contains(n) && s.nodes[n].proposer.phase is Initial && t
                == start_step(s, n, v);
        lemma_start_inv(s, n, v);
    } else if exists|n: u32, m: MessageKind<C>|
        #![trigger deliver_step(s, n, m)]
        s.nodes.contains_key(n) && s.sent.contains(m) && t == deliver_step(s, n, m) {
        let (n, m) = choose|n: u32, m: MessageKind<C>|
            #![trigger deliver_step(s, n, m)]
            s.nodes.contains_key(n) && s.sent.contains(m) && t == deliver_step(s, n, m);
        lemma_deliver_inv(s, n, m);
    } else {
        let n = choose|n: u32| #![trigger restart_step(s, n)] s.nodes.contains_key(n) && t == restart_step(s, n);
        lemma_restart_inv(s, n);
    }
}

/// Agreement along every execution: from a cluster of `total` nodes with
/// distinct identifiers, whatever proposers start, whatever sent messages are
/// handled in whatever order, and whichever nodes restart with their saved
/// acceptor state, no two nodes ever learn different commands in the instance.
pub proof fn lemma_execution_agreement<C>(
    ids: Set<u32>,
    total: u32,
    instance_id: u64,
    ex: Seq<ClusterView<C>>,
    i: int,
    n1: u32,
    n2: u32,
)
    requires
        ids.finite(),
        ids.len() == total,
        total >= 1,
        forall|n: u32| #[trigger] ids.contains(n) ==> n + total <= u32::MAX,
        ex.len() > 0,
        ex[0] == initial_cluster::<C>(ids, total, instance_id),
        forall|j: int| 0 <= j < ex.len() - 1 ==> #[trigger] cluster_next(ex[j], ex[j + 1]),
        0 <= i < ex.len(),
        ex[i].nodes.contains_key(n1),
        ex[i].nodes.contains_key(n2),
        ex[i].nodes[n1].learner.value is Some,
        ex[i].nodes[n2].learner.value is Some,
    ensures
        ex[i].nodes[n1].learner.value == ex[i].nodes[n2].learner.value,
{
    lemma_execution_inv(ids, total, instance_id, ex, i);
    lemma_agreement(ex[i], n1, n2);
}

/// Every state of an execution from the initial cluster satisfies the invariant.
proof fn lemma_execution_inv<C>(ids: Set<u32>, total: u32, instance_id: u64, ex: Seq<ClusterView<C>>, i: int)
    requires
        ids.finite(),
        ids.len() == total,
        total >= 1,
        forall|n: u32| #[trigger] ids.contains(n) ==> n + total <= u32::MAX,
        ex.len() > 0,
        ex[0] == initial_cluster::<C>(ids, total, instance_id),
        forall|j: int| 0 <= j < ex.len() - 1 ==> #[trigger] cluster_next(ex[j], ex[j + 1]),
        0 <= i < ex.len(),
    ensures
        cluster_inv(ex[i]),
    decreases i,
{
    if i == 0 {
        lemma_initial_inv::<C>(ids, total, instance_id);
    } else {
        lemma_execution_inv(ids, total, instance_id, ex, i - 1);
        assert(cluster_next(ex[i - 1], ex[i - 1 + 1]));
        lemma_next_inv(ex[i - 1], ex[i]);
    }
}

} // verus!
