//! Applying committed commands to the state machine, in log order, once each.
//!
//! Every node applies the command of instance 0, then of instance 1, and so on, as
//! soon as its node has learned it; so every node applies the same commands in the
//! same order. With a command log, each command is appended to the log before it
//! is applied, and the count of applied instances is recorded after each command
//! that the state machine applied successfully.
use crate::commands::{CommandTrait, SerializableCommand};
use crate::multipaxos::storage::{
    last_applied_key_spec, last_applied_spec, log_prefix_spec, replayed, sorted_entries_of, CommandLog, LogRequest,
};
use crate::multipaxos::{MultiPaxosNode, NodeView, ProposalTicket};
use crate::StateMachine;
use vstd::prelude::*;

verus! {

/// Instance `i` has learned a command.
pub open spec fn learned<C>(v: NodeView<C>, i: u64) -> bool {
    v.instances.contains_key(i) && v.instances[i].learner.value is Some
}

/// The first instance at or after `from` that has not learned a command (the last
/// possible instance if every one from `from` on has).
pub open spec fn first_gap<C>(v: NodeView<C>, from: u64) -> u64
    decreases u64::MAX - from,
{
    if from < u64::MAX && learned(v, from) {
        first_gap(v, (from + 1) as u64)
    } else {
        from
    }
}

/// The writes requested from the command log while applying `applied` (instance,
/// command, whether the state machine applied it) in order: each command is
/// appended, and after each success the count of applied instances is recorded.
pub open spec fn apply_requests<C>(applied: Seq<(u64, C, bool)>) -> Seq<LogRequest<C>>
    decreases applied.len(),
{
    if applied.len() == 0 {
        Seq::empty()
    } else {
        let (i, c, ok) = applied.last();
        apply_requests(applied.drop_last()) + seq![LogRequest::Append { instance_id: i, command: c }] + if ok {
            seq![LogRequest::SetLastApplied { count: (i + 1) as u64 }]
        } else {
            Seq::empty()
        }
    }
}

/// The tickets answered while applying `applied`: the waiting proposal of each
/// instance whose command the state machine applied.
pub open spec fn answered_tickets<C>(applied: Seq<(u64, C, bool)>, pending: Map<u64, ProposalTicket>) -> Seq<
    ProposalTicket,
>
    decreases applied.len(),
{
    if applied.len() == 0 {
        Seq::empty()
    } else {
        let (i, c, ok) = applied.last();
        answered_tickets(applied.drop_last(), pending) + if ok && pending.contains_key(i) {
            seq![pending[i]]
        } else {
            Seq::empty()
        }
    }
}

/// The writes requested through an optional command log.
pub open spec fn log_requests<C>(log: Option<CommandLog<C>>) -> Seq<LogRequest<C>> {
    match log {
        Some(l) => l.requests(),
        None => Seq::empty(),
    }
}

/// The instances from `from` up to (not including) `to`.
pub open spec fn instance_range(from: u64, to: u64) -> Set<u64> {
    Set::new(|k: u64| from <= k < to)
}

/// The tickets of a list of answers.
pub open spec fn tickets_of<O>(answers: Seq<(ProposalTicket, O)>) -> Seq<ProposalTicket> {
    answers.map_values(|a: (ProposalTicket, O)| a.0)
}

/// What follows the state machine's answer `result` to the command of instance
/// `i`: when it applied the command, the count of applied instances `i + 1` is
/// recorded in the log, if there is one, and the output is handed to the waiting
/// proposal `ticket`, if there is one; when it refused, nothing. Returns whether
/// the command was applied.
pub fn record_applied<C: SerializableCommand, O>(
    log: &mut Option<CommandLog<C>>,
    i: u64,
    ticket: Option<ProposalTicket>,
    result: crate::Result<O>,
    answers: &mut Vec<(ProposalTicket, O)>,
) -> (ok: bool)
    requires
        i < u64::MAX,
    ensures
        ok == result is Ok,
        (*old(log) is Some) == (*final(log) is Some),
        log_requests(*final(log)) == log_requests(*old(log)) + if ok && *old(log) is Some {
            seq![LogRequest::SetLastApplied { count: (i + 1) as u64 }]
        } else {
            Seq::empty()
        },
        final(answers)@ == old(answers)@ + match (result, ticket) {
            (Ok(o), Some(t)) => seq![(t, o)],
            _ => Seq::empty(),
        },
{
    match result {
        Ok(output) => {
            match log {
                Some(l) => {
                    let _ = l.set_last_applied(i + 1);
                },
                None => {},
            }
            match ticket {
                Some(t) => {
                    answers.push((t, output));
                },
                None => {},
            }
            true
        },
        Err(_) => false,
    }
}

/// Applies every committed command from instance `*last_applied` on, in instance
/// order, up to the first instance whose command is not learned yet, which
/// `*last_applied` then holds. With a log, each command is appended before it is
/// applied, and the count of applied instances is recorded after each success.
/// What follows each answer of the state machine is [`record_applied`]. Returns
/// the output for each waiting proposal whose command was applied, and, as a
/// ghost, each applied instance with its command and whether the state machine
/// applied it (what `record_applied` returned for its answer).
pub fn apply_committed<S: StateMachine>(
    node: &mut MultiPaxosNode<S>,
    sm: &mut S,
    log: &mut Option<CommandLog<S::Command>>,
    last_applied: &mut u64,
) -> (r: (Vec<(ProposalTicket, S::Output)>, Ghost<Seq<(u64, S::Command, bool)>>))
    requires
        old(node).well_formed(),
    ensures
        final(node).well_formed(),
        final(node).stored() == old(node).stored(),
        *final(last_applied) == first_gap(old(node)@, *old(last_applied)),
        final(node)@ == (NodeView {
            pending: old(node)@.pending.remove_keys(instance_range(*old(last_applied), *final(last_applied))),
            ..old(node)@
        }),
        r.1@.len() == *final(last_applied) - *old(last_applied),
        forall|k: int|
            0 <= k < r.1@.len() ==> {
                &&& (#[trigger] r.1@[k]).0 == *old(last_applied) + k
                &&& r.1@[k].1 == old(node)@.instances[r.1@[k].0].learner.value.unwrap()
            },
        (*old(log) is Some) == (*final(log) is Some),
        *old(log) is Some ==> log_requests(*final(log)) == log_requests(*old(log)) + apply_requests(r.1@),
        tickets_of(r.0@) == answered_tickets(r.1@, old(node)@.pending),
        applied_in_order(*old(sm), *final(sm), outcomes_of(r.1@)),
{
    let ghost v0 = node@;
    let ghost stored0 = node.stored();
    let ghost from = *last_applied;
    let ghost log0 = log_requests(*log);
    let mut answers: Vec<(ProposalTicket, S::Output)> = Vec::new();
    let ghost mut applied: Seq<(u64, S::Command, bool)> = Seq::empty();
    let ghost mut states: Seq<S> = seq![*sm];
    let ghost mut results: Seq<crate::Result<S::Output>> = Seq::empty();
    assert(v0.pending.remove_keys(instance_range(from, from)) =~= v0.pending);
    assert(outcomes_of(applied) =~= Seq::<(S::Command, bool)>::empty());
    loop
        invariant
            apply_chain(states, results, *old(sm), *sm, outcomes_of(applied)),
            node.well_formed(),
            node.stored() == stored0,
            from <= *last_applied,
            first_gap(v0, *last_applied) == first_gap(v0, from),
            node@ == (NodeView { pending: v0.pending.remove_keys(instance_range(from, *last_applied)), ..v0 }),
            applied.len() == *last_applied - from,
            forall|k: int|
                0 <= k < applied.len() ==> {
                    &&& (#[trigger] applied[k]).0 == from + k
                    &&& applied[k].0 < u64::MAX
                    &&& applied[k].1 == v0.instances[applied[k].0].learner.value.unwrap()
                },
            (*old(log) is Some) == (*log is Some),
            log0 == log_requests(*old(log)),
            *log is Some ==> log_requests(*log) == log0 + apply_requests(applied),
            tickets_of(answers@) == answered_tickets(applied, v0.pending),
        ensures
            first_gap(v0, *last_applied) == *last_applied,
        decreases u64::MAX - *last_applied,
    {
        let i = *last_applied;
        if i == u64::MAX {
            break;
        }
        let ghost v1 = node@;
        match node.commit(i) {
            None => {
                assert(!learned(v0, i));
                break;
            },
            Some((command, ticket)) => {
                assert(learned(v0, i));
                let ghost c = command;
                let ghost before = log_requests(*log);
                match log {
                    Some(l) => {
                        let _ = l.append(i, &command);
                    },
                    None => {},
                }
                let ghost mid = *sm;
                let result = sm.apply(command);
                let ghost res = result;
                proof {
                    lemma_one_more_call(states, results, *old(sm), mid, outcomes_of(applied), c, *sm, res);
                    states = states.push(*sm);
                    results = results.push(res);
                }
                let ok = record_applied(log, i, ticket, result, &mut answers);
                proof {
                    let entry = (i, c, ok);
                    let applied2 = applied.push(entry);
                    assert(outcomes_of(applied2) =~= outcomes_of(applied).push((c, ok)));
                    assert(applied2.drop_last() =~= applied);
                    assert(applied2.last() == entry);
                    assert(v1.pending.contains_key(i) == v0.pending.contains_key(i));
                    if v0.pending.contains_key(i) {
                        assert(v1.pending[i] == v0.pending[i]);
                    }
                    assert(tickets_of(answers@) =~= answered_tickets(applied2, v0.pending));
                    if *log is Some {
                        assert(log_requests(*log) =~= log0 + apply_requests(applied2));
                    }
                    assert(node@.pending =~= v0.pending.remove_keys(instance_range(from, (i + 1) as u64)));
                    assert forall|k: int| 0 <= k < applied2.len() implies {
                        &&& (#[trigger] applied2[k]).0 == from + k
                        &&& applied2[k].0 < u64::MAX
                        &&& applied2[k].1 == v0.instances[applied2[k].0].learner.value.unwrap()
                    } by {
                        if k < applied.len() {
                            assert(applied2[k] == applied[k]);
                        }
                    }
                    applied = applied2;
                }
                *last_applied = i + 1;
            },
        }
    }
    (answers, Ghost(applied))
}

/// The commands of a list of log entries, in order.
pub open spec fn commands_of<C>(entries: Seq<(u64, C)>) -> Seq<C> {
    entries.map_values(|e: (u64, C)| e.1)
}

/// `applied` (each command handed to the state machine, with whether it was
/// applied) is a run over `cmds` that stops at the first refusal: its commands
/// are the first ones of `cmds`, in order, and each but the last was applied.
pub open spec fn applied_prefix<C>(applied: Seq<(C, bool)>, cmds: Seq<C>) -> bool {
    &&& applied.len() <= cmds.len()
    &&& forall|k: int| 0 <= k < applied.len() ==> (#[trigger] applied[k]).0 == cmds[k]
    &&& forall|k: int| 0 <= k < applied.len() - 1 ==> (#[trigger] applied[k]).1
}

/// Every command of `cmds` was handed over and applied.
pub open spec fn applied_all<C>(applied: Seq<(C, bool)>, cmds: Seq<C>) -> bool {
    &&& applied.len() == cmds.len()
    &&& forall|k: int| 0 <= k < applied.len() ==> (#[trigger] applied[k]).1
}

/// `states` and `results` witness a run of `apply` calls that took the state
/// machine from `before` to `after`: the `k`-th call was given the `k`-th command
/// of `applied`, took the state machine from `states[k]` to `states[k + 1]`, and
/// answered `results[k]`, which is `Ok` exactly when `applied` says the command
/// was applied.
pub open spec fn apply_chain<S: StateMachine>(
    states: Seq<S>,
    results: Seq<crate::Result<S::Output>>,
    before: S,
    after: S,
    applied: Seq<(S::Command, bool)>,
) -> bool {
    &&& states.len() == applied.len() + 1
    &&& results.len() == applied.len()
    &&& states[0] == before
    &&& states[applied.len() as int] == after
    &&& forall|k: int|
        0 <= k < applied.len() ==> {
            &&& states[k].applied((#[trigger] applied[k]).0, states[k + 1], results[k])
            &&& applied[k].1 == results[k] is Ok
        }
}

/// The state machine went from `before` to `after` through one call of `apply`
/// for each command of `applied`, in order, each answering as `applied` says: no
/// command was skipped, repeated or reordered.
pub open spec fn applied_in_order<S: StateMachine>(before: S, after: S, applied: Seq<(S::Command, bool)>) -> bool {
    exists|states: Seq<S>, results: Seq<crate::Result<S::Output>>|
        #[trigger] apply_chain(states, results, before, after, applied)
}

/// A run of `apply` calls ends with one call for its last command: before it,
/// the state machine went through a run for the other commands, and the last
/// call took it from there to the end, answering as the run says.
pub proof fn lemma_last_call<S: StateMachine>(before: S, after: S, applied: Seq<(S::Command, bool)>)
    requires
        applied_in_order(before, after, applied),
        applied.len() > 0,
    ensures
        exists|mid: S, result: crate::Result<S::Output>|
            #![trigger mid.applied(applied.last().0, after, result)]
            applied_in_order(before, mid, applied.drop_last()) && mid.applied(applied.last().0, after, result) && (
            result is Ok) == applied.last().1,
{
    let (states, results) = choose|states: Seq<S>, results: Seq<crate::Result<S::Output>>|
        #[trigger] apply_chain(states, results, before, after, applied);
    let n = applied.len() - 1;
    let mid = states[n];
    let result = results[n];
    assert(applied[n] == applied.last());
    assert(mid.applied(applied.last().0, after, result));
    let s2 = states.subrange(0, n + 1);
    let r2 = results.subrange(0, n);
    let a2 = applied.drop_last();
    assert forall|k: int| 0 <= k < a2.len() implies {
        &&& s2[k].applied((#[trigger] a2[k]).0, s2[k + 1], r2[k])
        &&& a2[k].1 == r2[k] is Ok
    } by {
        assert(a2[k] == applied[k]);
    }
    assert(apply_chain(s2, r2, before, mid, a2));
}

/// The commands and outcomes of applied instances.
pub open spec fn outcomes_of<C>(applied: Seq<(u64, C, bool)>) -> Seq<(C, bool)> {
    applied.map_values(|e: (u64, C, bool)| (e.1, e.2))
}

/// No call at all takes a state machine to itself.
pub proof fn lemma_no_calls<S: StateMachine>(sm: S)
    ensures
        applied_in_order(sm, sm, Seq::<(S::Command, bool)>::empty()),
{
    let states = seq![sm];
    let results = Seq::<crate::Result<S::Output>>::empty();
    assert(apply_chain(states, results, sm, sm, Seq::<(S::Command, bool)>::empty()));
}

/// One more call extends a run.
pub proof fn lemma_one_more_call<S: StateMachine>(
    states: Seq<S>,
    results: Seq<crate::Result<S::Output>>,
    before: S,
    mid: S,
    applied: Seq<(S::Command, bool)>,
    command: S::Command,
    after: S,
    result: crate::Result<S::Output>,
)
    requires
        apply_chain(states, results, before, mid, applied),
        mid.applied(command, after, result),
    ensures
        apply_chain(
            states.push(after),
            results.push(result),
            before,
            after,
            applied.push((command, result is Ok)),
        ),
{
    let a2 = applied.push((command, result is Ok));
    let s2 = states.push(after);
    let r2 = results.push(result);
    assert forall|k: int| 0 <= k < a2.len() implies {
        &&& s2[k].applied((#[trigger] a2[k]).0, s2[k + 1], r2[k])
        &&& a2[k].1 == r2[k] is Ok
    } by {
        if k < applied.len() {
            assert(a2[k] == applied[k]);
            assert(s2[k] == states[k]);
            assert(s2[k + 1] == states[k + 1]);
            assert(r2[k] == results[k]);
            assert(states[k].applied(applied[k].0, states[k + 1], results[k]));
        }
    }
}

/// Applies the commands of `entries` in order, and stops at the first one that the
/// state machine refuses, whose error it returns. Returns, as a ghost, each
/// command handed to the state machine with whether it was applied.
pub fn apply_entries<S: StateMachine>(sm: &mut S, entries: &Vec<(u64, S::Command)>) -> (r: (
    crate::Result<()>,
    Ghost<Seq<(S::Command, bool)>>,
))
    ensures
        applied_prefix(r.1@, commands_of(entries@)),
        r.0 is Ok <==> applied_all(r.1@, commands_of(entries@)),
        r.0 is Err ==> r.1@.len() >= 1 && !r.1@.last().1,
        applied_in_order(*old(sm), *final(sm), r.1@),
{
    let ghost cmds = commands_of(entries@);
    let ghost mut applied: Seq<(S::Command, bool)> = Seq::empty();
    let ghost mut states: Seq<S> = seq![*sm];
    let ghost mut results: Seq<crate::Result<S::Output>> = Seq::empty();
    let mut i: usize = 0;
    while i < entries.len()
        invariant
            i <= entries@.len(),
            cmds == commands_of(entries@),
            apply_chain(states, results, *old(sm), *sm, applied),
            applied.len() == i,
            forall|k: int| 0 <= k < applied.len() ==> (#[trigger] applied[k]).0 == cmds[k],
            forall|k: int| 0 <= k < applied.len() ==> (#[trigger] applied[k]).1,
        decreases entries.len() - i,
    {
        let command = entries[i].1.clone_command();
        let ghost mid = *sm;
        let result = sm.apply(command);
        let ok = result.is_ok();
        proof {
            lemma_one_more_call(states, results, *old(sm), mid, applied, command, *sm, result);
            states = states.push(*sm);
            results = results.push(result);
            let applied2 = applied.push((command, ok));
            assert forall|k: int| 0 <= k < applied2.len() implies (#[trigger] applied2[k]).0 == cmds[k] by {
                if k < applied.len() {
                    assert(applied2[k] == applied[k]);
                }
            }
            assert forall|k: int| 0 <= k < applied2.len() - 1 implies (#[trigger] applied2[k]).1 by {
                assert(applied2[k] == applied[k]);
            }
            applied = applied2;
        }
        match result {
            Ok(_) => {},
            Err(e) => {
                proof {
                    if applied_all(applied, cmds) {
                        assert(applied[applied.len() - 1].1);
                    }
                    assert(apply_chain(states, results, *old(sm), *sm, applied));
                }
                return (Err(e), Ghost(applied));
            },
        }
        i = i + 1;
    }
    assert(apply_chain(states, results, *old(sm), *sm, applied));
    (Ok(()), Ghost(applied))
}

/// Restores a state machine from a command log: reads back every logged command,
/// applies them in log order with [`apply_entries`], and returns the stored count
/// of applied instances. An error when the log cannot be read or the state
/// machine refuses a command, after which no later command is applied. Whatever
/// the outcome, the commands handed to the state machine (the ghost result) are
/// the first of those the log's entries read back as, each but the last applied.
pub fn recover_state_machine<S: StateMachine>(sm: &mut S, log: &CommandLog<S::Command>) -> (r: (
    crate::Result<u64>,
    Ghost<Seq<(S::Command, bool)>>,
))
    ensures
        r.0 is Ok ==> last_applied_spec(log.stored().get(last_applied_key_spec())) == Some(r.0.unwrap()),
        r.0 is Ok || r.1@.len() > 0 ==> exists|es: Seq<(Seq<u8>, Seq<u8>)>, rs: Seq<(u64, S::Command)>|
            sorted_entries_of(es, log.stored(), log_prefix_spec()) && replayed(es, rs) && applied_prefix(
                r.1@,
                commands_of(rs),
            ) && (r.0 is Ok <==> applied_all(r.1@, commands_of(rs))),
        r.0 is Err && r.1@.len() > 0 ==> !r.1@.last().1,
        applied_in_order(*old(sm), *final(sm), r.1@),
{
    proof {
        lemma_no_calls(*sm);
    }
    let entries = match log.replay() {
        Ok(e) => e,
        Err(e) => return (Err(e), Ghost(Seq::empty())),
    };
    let last_applied = match log.last_applied() {
        Ok(n) => n,
        Err(e) => return (Err(e), Ghost(Seq::empty())),
    };
    let (res, applied) = apply_entries(sm, &entries);
    match res {
        Ok(()) => (Ok(last_applied), applied),
        Err(e) => (Err(e), applied),
    }
}

} // verus!
