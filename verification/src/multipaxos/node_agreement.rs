//! Agreement across whole nodes: every instance of every node is one instance of
//! the cluster of `agreement`, and each step of a node (a proposal, a handled
//! message, a restart with the acceptor state it saved) is a run of steps of that
//! cluster in each instance. So in every execution of the nodes, two nodes never
//! learn different commands in one instance.
use crate::multipaxos::agreement::{
    cluster_inv, deliver_step, initial_cluster, lemma_agreement, lemma_deliver_inv, lemma_initial_inv,
    lemma_restart_inv, lemma_start_inv, restart_step, start_step, ClusterView,
};
use crate::multipaxos::synod::learner::LearnerView;
use crate::multipaxos::synod::proposer::{new_prepare_step, ProposerPhase, ProposerView};
use crate::multipaxos::synod::{
    fresh_instance, instance_step, lemma_answer_rank_increases, lemma_instance_step_well_formed, message_rank,
    InstanceView, Message, MessageKind,
};
use crate::multipaxos::synod::Acceptor;
use crate::commands::{decoding_inverts_encoding, SerializableCommand};
use crate::multipaxos::recovery::{lemma_restored_is_saved, store_matches};
use crate::multipaxos::storage::{promise_key_spec, stored_record};
use crate::multipaxos::{acceptor_restored, cascade, deliver_step as node_deliver_step, handle_step, instance_for, propose_step, quorum_of, wrap_all, NodeView};
use vstd::prelude::*;

verus! {

/// Feeding node `n` a sent message and then its own answers is a run of deliver
/// steps of the cluster: the invariant holds once the node holds the instance
/// the cascade ends in and every answer has been sent.
pub proof fn lemma_cascade_inv<C>(s: ClusterView<C>, n: u32, m: MessageKind<C>)
    requires
        cluster_inv(s),
        s.nodes.contains_key(n),
        s.sent.contains(m),
    ensures
        cluster_inv(
            ClusterView {
                nodes: s.nodes.insert(n, cascade(s.nodes[n], m).0),
                sent: s.sent + cascade(s.nodes[n], m).1.to_set(),
                ..s
            },
        ),
        forall|x: MessageKind<C>| #[trigger] cascade(s.nodes[n], m).1.contains(x) ==> !(x is RequestCommandToLeader)
            && !(x is ForwardAck),
        cascade(s.nodes[n], m).0.instance_id == s.nodes[n].instance_id,
        cascade(s.nodes[n], m).0.acceptor.max_ballot >= instance_step(s.nodes[n], m).0.acceptor.max_ballot,
        instance_step(s.nodes[n], m).0.acceptor.max_ballot >= s.nodes[n].acceptor.max_ballot,
    decreases 8 - message_rank(m, s.nodes[n].acceptor.my_id),
{
    let v = s.nodes[n];
    lemma_deliver_inv(s, n, m);
    lemma_answer_rank_increases(v, m);
    lemma_instance_step_well_formed(v, m);
    let t = deliver_step(s, n, m);
    let (v1, r, e) = instance_step(v, m);
    match r {
        None => {
            assert(cascade(v, m).1 == Seq::<MessageKind<C>>::empty());
            assert(s.sent + Seq::<MessageKind<C>>::empty().to_set() =~= s.sent);
            assert(t.nodes == s.nodes.insert(n, cascade(v, m).0));
        },
        Some(resp) => {
            assert(t.sent.contains(resp));
            assert(t.nodes.contains_key(n));
            assert(t.nodes[n] == v1);
            lemma_cascade_inv(t, n, resp);
            let c = cascade(v1, resp);
            assert(cascade(v, m).1 == seq![resp] + c.1);
            let w = seq![resp] + c.1;
            assert(w.len() == c.1.len() + 1);
            assert(w[0] == resp);
            assert forall|i: int| 0 <= i < c.1.len() implies w[i + 1] == c.1[i] by {}
            assert forall|x: MessageKind<C>| w.contains(x) <==> (x == resp || c.1.contains(x)) by {
                if w.contains(x) {
                    let i = choose|i: int| 0 <= i < w.len() && w[i] == x;
                    if i > 0 {
                        assert(c.1[i - 1] == x);
                    }
                }
                if c.1.contains(x) {
                    let i = choose|i: int| 0 <= i < c.1.len() && c.1[i] == x;
                    assert(w[i + 1] == x);
                }
            }
            assert(t.sent == s.sent.insert(resp));
            assert(s.sent + w.to_set() =~= t.sent + c.1.to_set());
            assert(t.nodes.insert(n, c.0) =~= s.nodes.insert(n, c.0));
            assert forall|x: MessageKind<C>| #[trigger] cascade(s.nodes[n], m).1.contains(x) implies !(
            x is RequestCommandToLeader) && !(x is ForwardAck) by {
                if x != resp {
                    assert(c.1.contains(x));
                }
            }
        },
    }
}

/// A cluster of whole nodes: the view of each node by identifier, every message
/// ever sent, and the (instance, node) pairs in which a node's proposer started a
/// proposal.
#[verifier::reject_recursive_types(C)]
pub struct NodesView<C> {
    pub nodes: Map<u32, NodeView<C>>,
    pub sent: Set<Message<C>>,
    pub started: Set<(u64, u32)>,
    pub total: u32,
}

/// A message of the protocol inside an instance, as opposed to the forwarding of a
/// proposal to the leader and its acknowledgement.
pub open spec fn protocol_message<C>(m: MessageKind<C>) -> bool {
    !(m is RequestCommandToLeader) && !(m is ForwardAck)
}

/// The protocol messages of instance `iid` among `sent`.
pub open spec fn sent_in<C>(sent: Set<Message<C>>, iid: u64) -> Set<MessageKind<C>> {
    Set::new(
        |m: MessageKind<C>|
            protocol_message(m) && exists|x: Message<C>| #[trigger] sent.contains(x) && x.paxos_instance == iid && x.msg == m,
    )
}

/// The protocol messages of instance `iid` among the messages `ms`.
pub open spec fn added_in<C>(ms: Seq<Message<C>>, iid: u64) -> Set<MessageKind<C>> {
    Set::new(
        |m: MessageKind<C>|
            protocol_message(m) && exists|i: int| 0 <= i < ms.len() && #[trigger] ms[i].paxos_instance == iid && ms[i].msg == m,
    )
}

/// Sending more messages adds their protocol messages to each instance.
pub proof fn lemma_sent_in_add<C>(sent: Set<Message<C>>, ms: Seq<Message<C>>, iid: u64)
    ensures
        sent_in(sent + ms.to_set(), iid) == sent_in(sent, iid) + added_in(ms, iid),
{
    let l = sent_in(sent + ms.to_set(), iid);
    let r = sent_in(sent, iid) + added_in(ms, iid);
    assert forall|m: MessageKind<C>| l.contains(m) <==> r.contains(m) by {
        if l.contains(m) {
            let x = choose|x: Message<C>| #[trigger] (sent + ms.to_set()).contains(x) && x.paxos_instance == iid && x.msg == m;
            if !sent.contains(x) {
                assert(ms.contains(x));
                let i = choose|i: int| 0 <= i < ms.len() && ms[i] == x;
                assert(ms[i].paxos_instance == iid && ms[i].msg == m);
                assert(added_in(ms, iid).contains(m));
            } else {
                assert(sent_in(sent, iid).contains(m));
            }
        }
        if r.contains(m) {
            if sent_in(sent, iid).contains(m) {
                let x = choose|x: Message<C>| #[trigger] sent.contains(x) && x.paxos_instance == iid && x.msg == m;
                assert((sent + ms.to_set()).contains(x));
            } else {
                let i = choose|i: int| 0 <= i < ms.len() && #[trigger] ms[i].paxos_instance == iid && ms[i].msg == m;
                assert(ms.contains(ms[i]));
                assert((sent + ms.to_set()).contains(ms[i]));
            }
        }
    }
    assert(l =~= r);
}

/// The protocol messages of an instance among messages of node `id` for instance
/// `iid`: those of `ks` when it is `iid`, none otherwise.
pub proof fn lemma_added_wrapped<C>(id: u32, iid: u64, ks: Seq<MessageKind<C>>, k: u64)
    ensures
        added_in(wrap_all(id, iid, ks), k) == if k == iid {
            Set::new(|m: MessageKind<C>| protocol_message(m) && ks.contains(m))
        } else {
            Set::<MessageKind<C>>::empty()
        },
{
    let w = wrap_all(id, iid, ks);
    assert(w.len() == ks.len());
    assert forall|i: int| 0 <= i < ks.len() implies w[i] == (Message { sender_id: id, paxos_instance: iid, msg: ks[i] }) by {}
    let l = added_in(w, k);
    let r = if k == iid {
        Set::new(|m: MessageKind<C>| protocol_message(m) && ks.contains(m))
    } else {
        Set::<MessageKind<C>>::empty()
    };
    assert forall|m: MessageKind<C>| l.contains(m) <==> r.contains(m) by {
        if l.contains(m) {
            let i = choose|i: int| 0 <= i < w.len() && #[trigger] w[i].paxos_instance == k && w[i].msg == m;
            assert(ks[i] == m);
        }
        if r.contains(m) {
            let i = choose|i: int| 0 <= i < ks.len() && ks[i] == m;
            assert(w[i].paxos_instance == k && w[i].msg == m);
        }
    }
    assert(l =~= r);
}

/// Instance `iid` of the nodes, as a cluster of `agreement`.
pub open spec fn project<C>(s: NodesView<C>, iid: u64) -> ClusterView<C> {
    ClusterView {
        nodes: s.nodes.map_values(|v: NodeView<C>| instance_for(v, iid)),
        sent: sent_in(s.sent, iid),
        started: Set::new(|n: u32| s.started.contains((iid, n))),
        total: s.total,
    }
}

/// A node that has done nothing yet: node `n` of `total` nodes.
pub open spec fn fresh_node<C>(v: NodeView<C>, n: u32, total: u32) -> bool {
    &&& v.id == n
    &&& v.total_nodes == total
    &&& v.instances == Map::<u64, InstanceView<C>>::empty()
}

/// Node `n` proposes `cmd`.
pub open spec fn node_propose<C>(s: NodesView<C>, n: u32, cmd: C) -> NodesView<C> {
    let v = s.nodes[n];
    let (v1, msgs, _) = propose_step(v, cmd);
    NodesView {
        nodes: s.nodes.insert(n, v1),
        sent: s.sent + msgs.to_set(),
        started: if v.leader_ballot is None && v.known_leader_id is Some {
            s.started
        } else {
            s.started.insert((v.next_instance_id, n))
        },
        total: s.total,
    }
}

/// Node `n` handles the sent message `m`.
pub open spec fn node_handle<C>(s: NodesView<C>, n: u32, m: Message<C>) -> NodesView<C> {
    let v = s.nodes[n];
    let (v1, msgs) = handle_step(v, m);
    NodesView {
        nodes: s.nodes.insert(n, v1),
        sent: s.sent + msgs.to_set(),
        started: if m.msg is RequestCommandToLeader && v.leader_ballot is Some {
            s.started.insert((v.next_instance_id, n))
        } else {
            s.started
        },
        total: s.total,
    }
}

/// An acceptor that has neither promised nor accepted anything.
pub open spec fn fresh_acceptor<C>(a: Acceptor<C>) -> bool {
    a.max_ballot == 0 && a.max_accepted is None
}

/// An instance after its node restarted: its acceptor as saved, its proposer and
/// learner afresh.
pub open spec fn restarted_instance<C>(v: InstanceView<C>, n: u32, total: u32) -> InstanceView<C> {
    InstanceView {
        proposer: ProposerView {
            phase: ProposerPhase::Initial,
            ballot: n,
            proposer_id: n,
            quorum_size: quorum_of(total),
            total_nodes: total,
        },
        learner: LearnerView {
            value: None,
            voters: Seq::empty(),
            tally: Map::empty(),
            ballot: 0,
            quorum_size: quorum_of(total),
        },
        ..v
    }
}

/// `w` is node `v` restarted from what it saved: it holds the instances whose
/// acceptor had changed, each with that acceptor and a fresh proposer and learner,
/// and its next instance follows all of them (what `MultiPaxosNode::with_storage`
/// gives over a store that holds the node's acceptors: `lemma_rebuilt_is_restart`).
pub open spec fn node_restarted<C>(v: NodeView<C>, w: NodeView<C>) -> bool {
    &&& w.id == v.id
    &&& w.total_nodes == v.total_nodes
    &&& forall|k: u64| #[trigger]
        w.instances.contains_key(k) <==> (v.instances.contains_key(k) && !fresh_acceptor(v.instances[k].acceptor))
    &&& forall|k: u64| #[trigger]
        w.instances.contains_key(k) ==> w.instances[k] == restarted_instance(v.instances[k], v.id, v.total_nodes)
            && k < w.next_instance_id
}

/// One step of the nodes: a node proposes, handles a sent message, or restarts.
/// A step whose storage write failed is not among them: it sends nothing, and its
/// node continues or restarts from what was saved.
pub open spec fn nodes_next<C>(s: NodesView<C>, t: NodesView<C>) -> bool {
    ||| exists|n: u32, cmd: C|
        #![trigger node_propose(s, n, cmd)]
        s.nodes.contains_key(n) && s.nodes[n].next_instance_id < u64::MAX && t == node_propose(s, n, cmd)
    ||| exists|n: u32, m: Message<C>|
        #![trigger node_handle(s, n, m)]
        s.nodes.contains_key(n) && s.sent.contains(m) && m.paxos_instance < u64::MAX
            && s.nodes[n].next_instance_id < u64::MAX && t == node_handle(s, n, m)
    ||| exists|n: u32, w: NodeView<C>|
        #![trigger node_restarted(s.nodes[n], w)]
        s.nodes.contains_key(n) && node_restarted(s.nodes[n], w) && t == (NodesView { nodes: s.nodes.insert(n, w), ..s })
}

/// The invariant of the nodes: each instance is a cluster of `agreement` that
/// keeps its invariant; a node's instances are below its next instance and carry
/// their own number; a node that started a proposal in an instance has promised
/// a ballot there.
pub open spec fn nodes_inv<C>(s: NodesView<C>) -> bool {
    &&& forall|n: u32| #[trigger]
        s.nodes.contains_key(n) ==> {
            let v = s.nodes[n];
            &&& v.id == n
            &&& v.total_nodes == s.total
            &&& forall|k: u64| #[trigger]
                v.instances.contains_key(k) ==> k < v.next_instance_id && v.instances[k].instance_id == k
        }
    &&& forall|k: u64, n: u32| #[trigger]
        s.started.contains((k, n)) ==> {
            &&& s.nodes.contains_key(n)
            &&& s.nodes[n].instances.contains_key(k)
            &&& s.nodes[n].instances[k].acceptor.max_ballot > 0
        }
    &&& forall|k: u64| #[trigger] cluster_inv(project(s, k))
}

/// The invariant holds of fresh nodes with distinct identifiers.
pub proof fn lemma_nodes_initial<C>(s: NodesView<C>, ids: Set<u32>)
    requires
        ids.finite(),
        ids.len() == s.total,
        s.total >= 1,
        forall|n: u32| #[trigger] ids.contains(n) ==> n + s.total <= u32::MAX,
        s.nodes.dom() == ids,
        forall|n: u32| #[trigger] s.nodes.contains_key(n) ==> fresh_node(s.nodes[n], n, s.total),
        s.sent == Set::<Message<C>>::empty(),
        s.started == Set::<(u64, u32)>::empty(),
    ensures
        nodes_inv(s),
{
    assert forall|k: u64| #[trigger] cluster_inv(project(s, k)) by {
        let c = project(s, k);
        let i = initial_cluster::<C>(ids, s.total, k);
        assert(c.nodes =~= i.nodes);
        assert(c.sent =~= i.sent);
        assert(c.started =~= i.started);
        assert(c == i);
        lemma_initial_inv::<C>(ids, s.total, k);
    }
}

/// The protocol messages among `ks` when all of them are protocol messages.
pub proof fn lemma_all_protocol<C>(ks: Seq<MessageKind<C>>)
    requires
        forall|x: MessageKind<C>| #[trigger] ks.contains(x) ==> protocol_message(x),
    ensures
        Set::new(|m: MessageKind<C>| protocol_message(m) && ks.contains(m)) == ks.to_set(),
{
    assert(Set::new(|m: MessageKind<C>| protocol_message(m) && ks.contains(m)) =~= ks.to_set());
}

/// Handling a protocol message of instance `iid` keeps the invariant: in that
/// instance it is a run of deliver steps of the cluster, and no other instance
/// changes.
proof fn lemma_handle_deliver<C>(s: NodesView<C>, n: u32, m: Message<C>)
    requires
        nodes_inv(s),
        s.nodes.contains_key(n),
        s.sent.contains(m),
        m.paxos_instance < u64::MAX,
        protocol_message(m.msg),
    ensures
        nodes_inv(node_handle(s, n, m)),
{
    let v = s.nodes[n];
    let iid = m.paxos_instance;
    let kind = m.msg;
    let t = node_handle(s, n, m);
    let v1 = node_deliver_step(v, iid, kind).0;
    assert(handle_step(v, m) == node_deliver_step(v, iid, kind));
    assert(t.nodes[n] == v1);
    let inst = instance_for(v, iid);
    let c = cascade(inst, kind);
    let c0 = project(s, iid);
    assert(cluster_inv(c0));
    assert(c0.nodes.contains_key(n));
    assert(c0.nodes[n] == inst);
    assert(c0.sent.contains(kind));
    lemma_cascade_inv(c0, n, kind);
    let target = ClusterView { nodes: c0.nodes.insert(n, c.0), sent: c0.sent + c.1.to_set(), ..c0 };
    assert(v1.instances == v.instances.insert(iid, c.0));
    assert forall|k: u64| #[trigger] cluster_inv(project(t, k)) by {
        lemma_sent_in_add(s.sent, wrap_all(v.id, iid, c.1), k);
        lemma_added_wrapped(v.id, iid, c.1, k);
        assert(project(t, k).started =~= project(s, k).started);
        if k == iid {
            lemma_all_protocol(c.1);
            assert(project(t, k).nodes =~= target.nodes);
            assert(project(t, k).sent =~= target.sent);
            assert(project(t, k) == target);
        } else {
            assert(project(t, k).nodes =~= project(s, k).nodes);
            assert(project(t, k).sent =~= project(s, k).sent);
            assert(project(t, k) == project(s, k));
        }
    }
    assert forall|k: u64, a: u32| #[trigger] t.started.contains((k, a)) implies {
        &&& t.nodes.contains_key(a)
        &&& t.nodes[a].instances.contains_key(k)
        &&& t.nodes[a].instances[k].acceptor.max_ballot > 0
    } by {
        if a == n && k == iid {
            assert(s.started.contains((k, a)));
        }
    }
}

/// Messages that are none of them protocol messages add nothing to any instance.
pub proof fn lemma_added_none<C>(ms: Seq<Message<C>>, k: u64)
    requires
        forall|i: int| 0 <= i < ms.len() ==> !protocol_message(#[trigger] ms[i].msg),
    ensures
        added_in(ms, k) == Set::<MessageKind<C>>::empty(),
{
    assert forall|m: MessageKind<C>| !added_in(ms, k).contains(m) by {
        if added_in(ms, k).contains(m) {
            let i = choose|i: int| 0 <= i < ms.len() && #[trigger] ms[i].paxos_instance == k && ms[i].msg == m;
            assert(!protocol_message(ms[i].msg));
        }
    }
    assert(added_in(ms, k) =~= Set::<MessageKind<C>>::empty());
}

/// A proposal that a node places itself keeps the invariant: in its new instance
/// it is the start of a proposer followed by a run of deliver steps; a forwarded
/// proposal changes no instance.
proof fn lemma_propose_inv<C>(s: NodesView<C>, n: u32, cmd: C)
    requires
        nodes_inv(s),
        s.nodes.contains_key(n),
        s.nodes[n].next_instance_id < u64::MAX,
    ensures
        nodes_inv(node_propose(s, n, cmd)),
{
    let v = s.nodes[n];
    let t = node_propose(s, n, cmd);
    let (v1, msgs, _) = propose_step(v, cmd);
    assert(t.nodes[n] == v1);
    if v.leader_ballot is None && v.known_leader_id is Some {
        assert forall|i: int| 0 <= i < msgs.len() implies !protocol_message(#[trigger] msgs[i].msg) by {}
        assert forall|k: u64| #[trigger] cluster_inv(project(t, k)) by {
            lemma_sent_in_add(s.sent, msgs, k);
            lemma_added_none(msgs, k);
            assert(project(t, k).nodes =~= project(s, k).nodes);
            assert(project(t, k).sent =~= project(s, k).sent);
            assert(project(t, k).started =~= project(s, k).started);
            assert(project(t, k) == project(s, k));
        }
    } else {
        let iid = v.next_instance_id;
        let total = s.total;
        let inst0 = fresh_instance::<C>(v.id, quorum_of(v.total_nodes), v.total_nodes, iid);
        let (p1, first) = new_prepare_step(inst0.proposer, cmd);
        let inst1 = InstanceView { proposer: p1, ..inst0 };
        let c = cascade(inst1, first);
        assert(!v.instances.contains_key(iid));
        let c0 = project(s, iid);
        assert(cluster_inv(c0));
        assert(c0.nodes.contains_key(n));
        assert(c0.nodes[n] == inst0);
        assert(!c0.started.contains(n)) by {
            if c0.started.contains(n) {
                assert(s.started.contains((iid, n)));
            }
        }
        lemma_start_inv(c0, n, cmd);
        let st = start_step(c0, n, cmd);
        assert(st.nodes[n] == inst1);
        assert(st.sent.contains(first));
        lemma_cascade_inv(st, n, first);
        let target = ClusterView { nodes: st.nodes.insert(n, c.0), sent: st.sent + c.1.to_set(), ..st };
        let all = seq![first] + c.1;
        assert(msgs == wrap_all(v.id, iid, all));
        assert(all.len() == c.1.len() + 1);
        assert(all[0] == first);
        assert forall|i: int| 0 <= i < c.1.len() implies all[i + 1] == c.1[i] by {}
        assert forall|x: MessageKind<C>| all.contains(x) <==> (x == first || c.1.contains(x)) by {
            if all.contains(x) {
                let i = choose|i: int| 0 <= i < all.len() && all[i] == x;
                if i > 0 {
                    assert(c.1[i - 1] == x);
                }
            }
            if c.1.contains(x) {
                let i = choose|i: int| 0 <= i < c.1.len() && c.1[i] == x;
                assert(all[i + 1] == x);
            }
        }
        assert(first is PrepareMsg);
        assert forall|x: MessageKind<C>| #[trigger] all.contains(x) implies protocol_message(x) by {
            if x != first {
                assert(c.1.contains(x));
            }
        }
        assert forall|k: u64| #[trigger] cluster_inv(project(t, k)) by {
            lemma_sent_in_add(s.sent, msgs, k);
            lemma_added_wrapped(v.id, iid, all, k);
            if k == iid {
                lemma_all_protocol(all);
                assert(project(t, k).nodes =~= target.nodes);
                assert(project(t, k).sent =~= target.sent);
                assert(project(t, k).started =~= target.started);
                assert(project(t, k) == target);
            } else {
                assert(project(t, k).nodes =~= project(s, k).nodes);
                assert(project(t, k).sent =~= project(s, k).sent);
                assert(project(t, k).started =~= project(s, k).started);
                assert(project(t, k) == project(s, k));
            }
        }
        assert(v1.instances == v.instances.insert(iid, c.0));
        assert(instance_step(inst1, first).0.acceptor.max_ballot > 0);
    }
}

/// Handling any sent message keeps the invariant.
proof fn lemma_handle_inv<C>(s: NodesView<C>, n: u32, m: Message<C>)
    requires
        nodes_inv(s),
        s.nodes.contains_key(n),
        s.sent.contains(m),
        m.paxos_instance < u64::MAX,
        s.nodes[n].next_instance_id < u64::MAX,
    ensures
        nodes_inv(node_handle(s, n, m)),
{
    let v = s.nodes[n];
    let t = node_handle(s, n, m);
    match m.msg {
        MessageKind::RequestCommandToLeader { cmd, forward_id } => {
            if v.leader_ballot is Some {
                lemma_propose_inv(s, n, cmd);
                let p = node_propose(s, n, cmd);
                let (v1, msgs, _) = propose_step(v, cmd);
                let iid = v.next_instance_id;
                let ack = Message {
                    sender_id: v.id,
                    paxos_instance: iid,
                    msg: MessageKind::<C>::ForwardAck { forward_id, instance_id: iid },
                };
                assert(handle_step(v, m).1 == msgs.push(ack));
                assert forall|k: u64| #[trigger] cluster_inv(project(t, k)) by {
                    assert(cluster_inv(project(p, k)));
                    lemma_sent_in_add(s.sent, msgs, k);
                    lemma_sent_in_add(s.sent, msgs.push(ack), k);
                    assert(added_in(msgs.push(ack), k) =~= added_in(msgs, k)) by {
                        assert forall|x: MessageKind<C>| added_in(msgs.push(ack), k).contains(x) implies added_in(
                            msgs,
                            k,
                        ).contains(x) by {
                            let i = choose|i: int|
                                0 <= i < msgs.push(ack).len() && #[trigger] msgs.push(ack)[i].paxos_instance == k
                                    && msgs.push(ack)[i].msg == x;
                            assert(i < msgs.len());
                            assert(msgs[i] == msgs.push(ack)[i]);
                        }
                        assert forall|x: MessageKind<C>| added_in(msgs, k).contains(x) implies added_in(
                            msgs.push(ack),
                            k,
                        ).contains(x) by {
                            let i = choose|i: int| 0 <= i < msgs.len() && #[trigger] msgs[i].paxos_instance == k && msgs[i].msg == x;
                            assert(msgs.push(ack)[i] == msgs[i]);
                        }
                    }
                    assert(project(t, k).nodes =~= project(p, k).nodes);
                    assert(project(t, k).sent =~= project(p, k).sent);
                    assert(project(t, k).started =~= project(p, k).started);
                    assert(project(t, k) == project(p, k));
                }
                assert forall|a: u32| #[trigger] t.nodes.contains_key(a) implies t.nodes[a].instances == p.nodes[a].instances by {}
            } else {
                assert(handle_step(v, m) == (v, Seq::<Message<C>>::empty()));
                assert(t.sent =~= s.sent);
                assert(t.nodes =~= s.nodes);
                assert(t == s);
            }
        },
        MessageKind::ForwardAck { .. } => {
            assert(handle_step(v, m).1 == Seq::<Message<C>>::empty());
            assert(t.sent =~= s.sent);
            assert(t.nodes[n].instances == v.instances);
            assert forall|k: u64| #[trigger] cluster_inv(project(t, k)) by {
                assert(project(t, k).nodes =~= project(s, k).nodes);
                assert(project(t, k).sent =~= project(s, k).sent);
                assert(project(t, k).started =~= project(s, k).started);
                assert(project(t, k) == project(s, k));
            }
        },
        _ => {
            lemma_handle_deliver(s, n, m);
        },
    }
}

/// A node restarting from what it saved keeps the invariant: in each instance it
/// is a restart of the cluster.
proof fn lemma_restart_nodes_inv<C>(s: NodesView<C>, n: u32, w: NodeView<C>)
    requires
        nodes_inv(s),
        s.nodes.contains_key(n),
        node_restarted(s.nodes[n], w),
    ensures
        nodes_inv(NodesView { nodes: s.nodes.insert(n, w), ..s }),
{
    let v = s.nodes[n];
    let t = NodesView { nodes: s.nodes.insert(n, w), ..s };
    assert forall|k: u64| #[trigger] cluster_inv(project(t, k)) by {
        let c0 = project(s, k);
        assert(cluster_inv(c0));
        assert(c0.nodes.contains_key(n));
        lemma_restart_inv(c0, n);
        let r = restart_step(c0, n);
        if w.instances.contains_key(k) {
            assert(instance_for(w, k) == r.nodes[n]);
        } else {
            if v.instances.contains_key(k) {
                assert(fresh_acceptor(v.instances[k].acceptor));
                assert(v.instances[k].acceptor.my_id == n);
                assert(instance_for(w, k) == r.nodes[n]);
            } else {
                assert(instance_for(w, k) == r.nodes[n]);
            }
        }
        assert(project(t, k).nodes =~= r.nodes);
        assert(project(t, k).sent =~= r.sent);
        assert(project(t, k).started =~= r.started);
        assert(project(t, k) == r);
    }
    assert forall|k: u64, a: u32| #[trigger] t.started.contains((k, a)) implies {
        &&& t.nodes.contains_key(a)
        &&& t.nodes[a].instances.contains_key(k)
        &&& t.nodes[a].instances[k].acceptor.max_ballot > 0
    } by {
        assert(s.started.contains((k, a)));
        if a == n {
            assert(!fresh_acceptor(v.instances[k].acceptor));
            assert(w.instances.contains_key(k));
        }
    }
}

/// Every step of the nodes keeps the invariant.
pub proof fn lemma_nodes_next_inv<C>(s: NodesView<C>, t: NodesView<C>)
    requires
        nodes_inv(s),
        nodes_next(s, t),
    ensures
        nodes_inv(t),
{
    if exists|n: u32, cmd: C|
        #![trigger node_propose(s, n, cmd)]
        s.nodes.contains_key(n) && s.nodes[n].next_instance_id < u64::MAX && t == node_propose(s, n, cmd) {
        let (n, cmd) = choose|n: u32, cmd: C|
            #![trigger node_propose(s, n, cmd)]
            s.nodes.contains_key(n) && s.nodes[n].next_instance_id < u64::MAX && t == node_propose(s, n, cmd);
        lemma_propose_inv(s, n, cmd);
    } else if exists|n: u32, m: Message<C>|
        #![trigger node_handle(s, n, m)]
        s.nodes.contains_key(n) && s.sent.contains(m) && m.paxos_instance < u64::MAX
            && s.nodes[n].next_instance_id < u64::MAX && t == node_handle(s, n, m) {
        let (n, m) = choose|n: u32, m: Message<C>|
            #![trigger node_handle(s, n, m)]
            s.nodes.contains_key(n) && s.sent.contains(m) && m.paxos_instance < u64::MAX
                && s.nodes[n].next_instance_id < u64::MAX && t == node_handle(s, n, m);
        lemma_handle_inv(s, n, m);
    } else {
        let (n, w) = choose|n: u32, w: NodeView<C>|
            #![trigger node_restarted(s.nodes[n], w)]
            s.nodes.contains_key(n) && node_restarted(s.nodes[n], w) && t == (NodesView { nodes: s.nodes.insert(n, w), ..s });
        lemma_restart_nodes_inv(s, n, w);
    }
}

/// Agreement along every execution of whole nodes: from fresh nodes with distinct
/// identifiers, whatever nodes propose, whatever sent messages they handle in
/// whatever order (messages may be lost, repeated or reordered), and whichever
/// nodes restart from what they saved, no two nodes ever learn different commands
/// in one instance.
pub proof fn lemma_node_execution_agreement<C>(
    ids: Set<u32>,
    ex: Seq<NodesView<C>>,
    i: int,
    iid: u64,
    n1: u32,
    n2: u32,
)
    requires
        ex.len() > 0,
        ids.finite(),
        ids.len() == ex[0].total,
        ex[0].total >= 1,
        forall|n: u32| #[trigger] ids.contains(n) ==> n + ex[0].total <= u32::MAX,
        ex[0].nodes.dom() == ids,
        forall|n: u32| #[trigger] ex[0].nodes.contains_key(n) ==> fresh_node(ex[0].nodes[n], n, ex[0].total),
        ex[0].sent == Set::<Message<C>>::empty(),
        ex[0].started == Set::<(u64, u32)>::empty(),
        forall|j: int| 0 <= j < ex.len() - 1 ==> #[trigger] nodes_next(ex[j], ex[j + 1]),
        0 <= i < ex.len(),
        ex[i].nodes.contains_key(n1),
        ex[i].nodes.contains_key(n2),
        ex[i].nodes[n1].instances.contains_key(iid),
        ex[i].nodes[n2].instances.contains_key(iid),
        ex[i].nodes[n1].instances[iid].learner.value is Some,
        ex[i].nodes[n2].instances[iid].learner.value is Some,
    ensures
        ex[i].nodes[n1].instances[iid].learner.value == ex[i].nodes[n2].instances[iid].learner.value,
{
    lemma_nodes_execution_inv(ids, ex, i);
    let c = project(ex[i], iid);
    assert(cluster_inv(c));
    assert(c.nodes[n1] == ex[i].nodes[n1].instances[iid]);
    assert(c.nodes[n2] == ex[i].nodes[n2].instances[iid]);
    lemma_agreement(c, n1, n2);
}

/// Every state of an execution from fresh nodes satisfies the invariant.
proof fn lemma_nodes_execution_inv<C>(ids: Set<u32>, ex: Seq<NodesView<C>>, i: int)
    requires
        ex.len() > 0,
        ids.finite(),
        ids.len() == ex[0].total,
        ex[0].total >= 1,
        forall|n: u32| #[trigger] ids.contains(n) ==> n + ex[0].total <= u32::MAX,
        ex[0].nodes.dom() == ids,
        forall|n: u32| #[trigger] ex[0].nodes.contains_key(n) ==> fresh_node(ex[0].nodes[n], n, ex[0].total),
        ex[0].sent == Set::<Message<C>>::empty(),
        ex[0].started == Set::<(u64, u32)>::empty(),
        forall|j: int| 0 <= j < ex.len() - 1 ==> #[trigger] nodes_next(ex[j], ex[j + 1]),
        0 <= i < ex.len(),
    ensures
        nodes_inv(ex[i]),
    decreases i,
{
    if i == 0 {
        lemma_nodes_initial(ex[0], ids);
    } else {
        lemma_nodes_execution_inv(ids, ex, i - 1);
        assert(nodes_next(ex[i - 1], ex[i - 1 + 1]));
        lemma_nodes_next_inv(ex[i - 1], ex[i]);
    }
}

/// A node that `MultiPaxosNode::with_storage` rebuilt from a store that holds the
/// acceptors of node `v` is `v` restarted: `w` below has what `with_storage`
/// ensures of the node it returns, and, where the command type's decoding inverts
/// its encoding, it is `node_restarted(v, w)`.
pub proof fn lemma_rebuilt_is_restart<C: SerializableCommand>(
    v: NodeView<C>,
    w: NodeView<C>,
    stored: Map<Seq<u8>, Seq<u8>>,
)
    requires
        decoding_inverts_encoding::<C>(),
        v.well_formed(),
        forall|k: u64| #[trigger] store_matches(stored, k, instance_for(v, k).acceptor),
        w.well_formed(),
        w.id == v.id,
        w.total_nodes == v.total_nodes,
        forall|k: u64| #[trigger] w.instances.contains_key(k) <==> stored.contains_key(promise_key_spec(k)),
        forall|k: u64| #[trigger]
            w.instances.contains_key(k) ==> {
                let inst = w.instances[k];
                let fresh = fresh_instance::<C>(w.id, quorum_of(w.total_nodes), w.total_nodes, k);
                &&& k < w.next_instance_id
                &&& inst.proposer == fresh.proposer
                &&& inst.learner == fresh.learner
                &&& stored_record(stored, k) matches Some(rec)
                &&& acceptor_restored(inst.acceptor, rec)
            },
    ensures
        node_restarted(v, w),
{
    assert forall|k: u64| #[trigger]
        w.instances.contains_key(k) <==> (v.instances.contains_key(k) && !fresh_acceptor(v.instances[k].acceptor)) by {
        assert(store_matches(stored, k, instance_for(v, k).acceptor));
    }
    assert forall|k: u64| #[trigger] w.instances.contains_key(k) implies w.instances[k] == restarted_instance(
        v.instances[k],
        v.id,
        v.total_nodes,
    ) && k < w.next_instance_id by {
        assert(store_matches(stored, k, instance_for(v, k).acceptor));
        assert(v.instances.contains_key(k));
        let a = v.instances[k].acceptor;
        let r = w.instances[k].acceptor;
        lemma_restored_is_saved(stored, k, a, r);
    }
}

} // verus!
