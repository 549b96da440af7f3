//! What a restart recovers of an acceptor: the store of an instance follows its
//! acceptor through every successful save, and an acceptor restored from that
//! store is the acceptor that was running, so it answers every later sequence of
//! messages as the running one would, refusing every ballot it had promised.
use crate::commands::{decoding_inverts_encoding, SerializableCommand};
use crate::multipaxos::storage::{
    accepted_key_spec, accepted_record_spec, lemma_acceptor_keys_distinct, lemma_record_parse,
    lemma_stored_digits, promise_key_spec, stored_after_event, stored_record,
};
use crate::multipaxos::synod::acceptor::{accept_step, prepare_step};
use crate::multipaxos::synod::{instance_step, lemma_persisted_acceptor, Acceptor, InstanceView, MessageKind};
use crate::multipaxos::acceptor_restored;
use crate::text::decimal_digits;
use vstd::prelude::*;

verus! {

/// The store holds the state of acceptor `a` of instance `id`: its promised
/// ballot, and its accepted proposal exactly when it has one. The store holds a
/// ballot for the instance exactly when the acceptor has promised or accepted
/// something.
pub open spec fn store_matches<C: SerializableCommand>(stored: Map<Seq<u8>, Seq<u8>>, id: u64, a: Acceptor<C>) -> bool {
    &&& stored.contains_key(promise_key_spec(id)) ==> stored[promise_key_spec(id)] == decimal_digits(a.max_ballot as nat)
    &&& stored.contains_key(promise_key_spec(id)) <==> !(a.max_ballot == 0 && a.max_accepted is None)
    &&& match a.max_accepted {
        None => !stored.contains_key(accepted_key_spec(id)),
        Some(p) => {
            &&& stored.contains_key(promise_key_spec(id))
            &&& stored.get(accepted_key_spec(id)) == Some(accepted_record_spec(p.ballot, p.command.encoding()))
        },
    }
}

/// An acceptor's answers to a sequence of messages, one per message: each
/// Prepare and Accept is answered as `prepare_step` and `accept_step` say; other
/// messages leave it as it is and get no answer from it.
pub open spec fn acceptor_run<C>(a: Acceptor<C>, ms: Seq<MessageKind<C>>) -> (Acceptor<C>, Seq<
    Option<MessageKind<C>>,
>)
    decreases ms.len(),
{
    if ms.len() == 0 {
        (a, Seq::empty())
    } else {
        let (a1, rs) = acceptor_run(a, ms.drop_last());
        match ms.last() {
            MessageKind::PrepareMsg(p) => {
                let (a2, m) = prepare_step(a1, p);
                (a2, rs.push(Some(m)))
            },
            MessageKind::AcceptMsg(x) => {
                let (a2, m) = accept_step(a1, x);
                (a2, rs.push(Some(m)))
            },
            _ => (a1, rs.push(None)),
        }
    }
}

/// A successful save keeps the store following the acceptor: if the store held
/// the state of an instance's acceptor, it holds the state of the acceptor after
/// the instance's step once that step's save succeeded.
pub proof fn lemma_save_keeps_store_matching<C: SerializableCommand>(
    stored: Map<Seq<u8>, Seq<u8>>,
    v: InstanceView<C>,
    m: MessageKind<C>,
)
    requires
        store_matches(stored, v.instance_id, v.acceptor),
    ensures
        store_matches(
            stored_after_event(stored, instance_step(v, m).2),
            v.instance_id,
            instance_step(v, m).0.acceptor,
        ),
{
    lemma_persisted_acceptor(v, m);
    lemma_acceptor_keys_distinct(v.instance_id, v.instance_id);
}

/// A restored acceptor is the acceptor whose state the store held: restored from
/// the stored record of its instance, with its identifier, it equals the running
/// acceptor, where the command type's decoding inverts its encoding.
pub proof fn lemma_restored_is_saved<C: SerializableCommand>(
    stored: Map<Seq<u8>, Seq<u8>>,
    id: u64,
    a: Acceptor<C>,
    r: Acceptor<C>,
)
    requires
        decoding_inverts_encoding::<C>(),
        store_matches(stored, id, a),
        stored.contains_key(promise_key_spec(id)),
        stored_record(stored, id) matches Some(rec) && acceptor_restored(r, rec),
        r.my_id == a.my_id,
    ensures
        r == a,
{
    lemma_stored_digits(a.max_ballot, 0);
    match a.max_accepted {
        Some(p) => {
            lemma_record_parse(p.ballot, p.command.encoding());
            let q = r.max_accepted.unwrap();
            assert(C::decodes_to(p.command.encoding(), Some(q.command)));
        },
        None => {},
    }
}

/// Along any sequence of messages an acceptor answers one answer per message, its
/// promised ballot never drops, and every Prepare with a ballot not above the
/// ballot it started with is refused.
pub proof fn lemma_run_refuses_lower<C>(a: Acceptor<C>, ms: Seq<MessageKind<C>>)
    ensures
        acceptor_run(a, ms).1.len() == ms.len(),
        acceptor_run(a, ms).0.max_ballot >= a.max_ballot,
        acceptor_run(a, ms).0.my_id == a.my_id,
        forall|k: int|
            0 <= k < ms.len() ==> (#[trigger] ms[k] matches MessageKind::PrepareMsg(p) && p.ballot <= a.max_ballot
                ==> acceptor_run(a, ms).1[k] matches Some(MessageKind::NackPrepareMsg(_))),
    decreases ms.len(),
{
    if ms.len() > 0 {
        let init = ms.drop_last();
        lemma_run_refuses_lower(a, init);
        let (a1, rs) = acceptor_run(a, init);
        assert forall|k: int| 0 <= k < ms.len() implies (#[trigger] ms[k] matches MessageKind::PrepareMsg(p)
            && p.ballot <= a.max_ballot ==> acceptor_run(a, ms).1[k] matches Some(MessageKind::NackPrepareMsg(_))) by {
            if k < init.len() {
                assert(ms[k] == init[k]);
                assert(acceptor_run(a, ms).1[k] == rs[k]);
            }
        }
    }
}

/// A restarted acceptor answers as the one whose state was saved: where the
/// command type's decoding inverts its encoding, an acceptor restored from a
/// store that holds the running acceptor's state gives the same answers as the
/// running acceptor to every sequence of messages, and refuses every Prepare whose
/// ballot is not above the one it had promised.
pub proof fn lemma_restored_answers_alike<C: SerializableCommand>(
    stored: Map<Seq<u8>, Seq<u8>>,
    id: u64,
    a: Acceptor<C>,
    r: Acceptor<C>,
    ms: Seq<MessageKind<C>>,
)
    requires
        decoding_inverts_encoding::<C>(),
        store_matches(stored, id, a),
        stored.contains_key(promise_key_spec(id)),
        stored_record(stored, id) matches Some(rec) && acceptor_restored(r, rec),
        r.my_id == a.my_id,
    ensures
        acceptor_run(r, ms) == acceptor_run(a, ms),
        forall|k: int|
            0 <= k < ms.len() ==> (#[trigger] ms[k] matches MessageKind::PrepareMsg(p) && p.ballot <= a.max_ballot
                ==> acceptor_run(r, ms).1[k] matches Some(MessageKind::NackPrepareMsg(_))),
{
    lemma_restored_is_saved(stored, id, a, r);
    lemma_run_refuses_lower(r, ms);
}

} // verus!
