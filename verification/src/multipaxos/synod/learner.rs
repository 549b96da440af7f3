//! The learner of a Paxos instance.
//!
//! The learner handles Learn messages from different ballots. A message of a
//! higher ballot than the current one starts a fresh count; a sender is counted
//! once per ballot; a command whose count reaches the quorum size is learned, and
//! from then on every Learn message is ignored.
use crate::commands::CommandTrait;
use crate::multipaxos::synod::messages::{Learn, MessageKind, SenderId};
use crate::multipaxos::Ballot;
use vstd::prelude::*;

verus! {

/// What a learner holds: the learned command, if any; the senders counted in the
/// current ballot; the number of votes each command received; the current ballot;
/// the quorum size.
#[verifier::reject_recursive_types(C)]
pub struct LearnerView<C> {
    pub value: Option<C>,
    pub voters: Seq<SenderId>,
    pub tally: Map<C, nat>,
    pub ballot: Ballot,
    pub quorum_size: u32,
}

#[derive(Debug, Clone)]
pub struct Learner<C> {
    value: Option<C>,
    /// The senders counted in the current ballot.
    voters: Vec<SenderId>,
    /// How many votes each command received.
    votes: Vec<(C, u32)>,
    ballot: Ballot,
    pub quorum_size: u32,
}

/// The tally that a list of (command, count) entries records.
pub open spec fn tally_of<C>(s: Seq<(C, u32)>) -> Map<C, nat>
    decreases s.len(),
{
    if s.len() == 0 {
        Map::empty()
    } else {
        tally_of(s.drop_last()).insert(s.last().0, s.last().1 as nat)
    }
}

/// No command occurs twice in the entries.
pub open spec fn distinct_commands<C>(s: Seq<(C, u32)>) -> bool {
    forall|i: int, j: int| 0 <= i < j < s.len() ==> s[i].0 != s[j].0
}

/// The votes a command received: zero when it received none.
pub open spec fn votes_for<C>(tally: Map<C, nat>, c: C) -> nat {
    if tally.contains_key(c) {
        tally[c]
    } else {
        0
    }
}

/// The learner's state and answer after a Learn message.
pub open spec fn learn_step<C>(v: LearnerView<C>, m: Learn<C>) -> (LearnerView<C>, Option<
    MessageKind<C>,
>) {
    if v.value is Some {
        (v, None)
    } else {
        let reset = m.ballot > v.ballot;
        let b = if reset {
            m.ballot
        } else {
            v.ballot
        };
        let voters0 = if reset {
            Seq::empty()
        } else {
            v.voters
        };
        let tally0 = if reset {
            Map::empty()
        } else {
            v.tally
        };
        if m.ballot == b && voters0.contains(m.sender) {
            (
                LearnerView {
                    value: None,
                    voters: voters0,
                    tally: tally0,
                    ballot: b,
                    quorum_size: v.quorum_size,
                },
                None,
            )
        } else {
            let voters1 = if voters0.contains(m.sender) {
                voters0
            } else {
                voters0.push(m.sender)
            };
            let n = votes_for(tally0, m.command) + 1;
            if n >= v.quorum_size {
                (
                    LearnerView {
                        value: Some(m.command),
                        voters: Seq::empty(),
                        tally: Map::empty(),
                        ballot: b,
                        quorum_size: v.quorum_size,
                    },
                    Some(MessageKind::LearnedCommand { cmd: m.command }),
                )
            } else {
                (
                    LearnerView {
                        value: None,
                        voters: voters1,
                        tally: tally0.insert(m.command, n),
                        ballot: b,
                        quorum_size: v.quorum_size,
                    },
                    None,
                )
            }
        }
    }
}

/// A learner's ballot never drops, and a Learn whose ballot is not above the
/// current one is counted in the current tally: the ballot stays, no vote already
/// counted is lost, and a vote from a sender not yet counted adds one to the
/// command's count (or, reaching the quorum, has the command learned).
pub proof fn lemma_learn_counts_older_ballots<C>(v: LearnerView<C>, m: Learn<C>)
    ensures
        learn_step(v, m).0.ballot >= v.ballot,
        m.ballot <= v.ballot ==> learn_step(v, m).0.ballot == v.ballot,
        v.value is None && m.ballot <= v.ballot && learn_step(v, m).0.value is None ==> forall|c: C|
            #[trigger] votes_for(learn_step(v, m).0.tally, c) >= votes_for(v.tally, c),
        v.value is None && m.ballot <= v.ballot && !v.voters.contains(m.sender) ==> {
            ||| learn_step(v, m).0.value == Some(m.command)
            ||| votes_for(learn_step(v, m).0.tally, m.command) == votes_for(v.tally, m.command) + 1
        },
{
}

impl<C> LearnerView<C> {
    /// What every learner keeps: each sender is counted once, each count is positive
    /// and below the quorum size, and once a value is learned nothing is counted.
    pub open spec fn well_formed(&self) -> bool {
        &&& self.voters.no_duplicates()
        &&& forall|c: C| #[trigger]
            self.tally.contains_key(c) ==> 1 <= self.tally[c] < self.quorum_size
        &&& self.value is Some ==> self.voters.len() == 0 && self.tally.dom().is_empty()
    }
}

impl<C> View for Learner<C> {
    type V = LearnerView<C>;

    closed spec fn view(&self) -> LearnerView<C> {
        LearnerView {
            value: self.value,
            voters: self.voters@,
            tally: tally_of(self.votes@),
            ballot: self.ballot,
            quorum_size: self.quorum_size,
        }
    }
}

proof fn lemma_tally_lookup<C>(s: Seq<(C, u32)>, c: C)
    requires
        distinct_commands(s),
    ensures
        tally_of(s).contains_key(c) <==> exists|i: int| 0 <= i < s.len() && s[i].0 == c,
        forall|i: int| 0 <= i < s.len() && s[i].0 == c ==> tally_of(s)[c] == s[i].1 as nat,
    decreases s.len(),
{
    if s.len() > 0 {
        let t = s.drop_last();
        assert(distinct_commands(t));
        lemma_tally_lookup(t, c);
        if tally_of(s).contains_key(c) {
            if s.last().0 != c {
                let i = choose|i: int| 0 <= i < t.len() && t[i].0 == c;
                assert(s[i] == t[i]);
            } else {
                assert(s[s.len() - 1].0 == c);
            }
        }
        if exists|i: int| 0 <= i < s.len() && s[i].0 == c {
            let i = choose|i: int| 0 <= i < s.len() && s[i].0 == c;
            if i < s.len() - 1 {
                assert(t[i] == s[i]);
            }
        }
    }
}

proof fn lemma_tally_update<C>(s: Seq<(C, u32)>, i: int, n: u32)
    requires
        distinct_commands(s),
        0 <= i < s.len(),
    ensures
        tally_of(s.update(i, (s[i].0, n))) == tally_of(s).insert(s[i].0, n as nat),
        distinct_commands(s.update(i, (s[i].0, n))),
    decreases s.len(),
{
    let u = s.update(i, (s[i].0, n));
    let t = s.drop_last();
    if i == s.len() - 1 {
        assert(u.drop_last() =~= t);
        assert(tally_of(t).insert(s[i].0, s[i].1 as nat).insert(s[i].0, n as nat) =~= tally_of(
            t,
        ).insert(s[i].0, n as nat));
    } else {
        assert(distinct_commands(t));
        lemma_tally_update(t, i, n);
        assert(u.drop_last() =~= t.update(i, (s[i].0, n)));
        assert(s.last().0 != s[i].0);
        assert(tally_of(t).insert(s[i].0, n as nat).insert(s.last().0, s.last().1 as nat)
            =~= tally_of(t).insert(s.last().0, s.last().1 as nat).insert(s[i].0, n as nat));
    }
    assert forall|a: int, b: int| 0 <= a < b < u.len() implies u[a].0 != u[b].0 by {
        assert(u[a].0 == s[a].0);
        assert(u[b].0 == s[b].0);
    }
}

proof fn lemma_tally_push<C>(s: Seq<(C, u32)>, c: C, n: u32)
    requires
        distinct_commands(s),
        forall|i: int| 0 <= i < s.len() ==> s[i].0 != c,
    ensures
        tally_of(s.push((c, n))) == tally_of(s).insert(c, n as nat),
        distinct_commands(s.push((c, n))),
{
    assert(s.push((c, n)).drop_last() =~= s);
    let u = s.push((c, n));
    assert forall|a: int, b: int| 0 <= a < b < u.len() implies u[a].0 != u[b].0 by {
        if b < s.len() {
            assert(u[a] == s[a]);
            assert(u[b] == s[b]);
        } else {
            assert(u[a] == s[a]);
        }
    }
}

/// Whether `x` occurs in `v`.
fn contains_sender(v: &Vec<SenderId>, x: SenderId) -> (r: bool)
    ensures
        r == v@.contains(x),
{
    let mut i: usize = 0;
    while i < v.len()
        invariant
            i <= v.len(),
            forall|j: int| 0 <= j < i ==> v@[j] != x,
        decreases v.len() - i,
    {
        if v[i] == x {
            return true;
        }
        i = i + 1;
    }
    false
}

/// The position of `c` among the entries, if it occurs.
fn find_command<C: CommandTrait>(v: &Vec<(C, u32)>, c: &C) -> (r: Option<usize>)
    ensures
        r matches Some(i) ==> i < v@.len() && v@[i as int].0 == *c,
        r is None ==> forall|j: int| 0 <= j < v@.len() ==> v@[j].0 != *c,
{
    let mut i: usize = 0;
    while i < v.len()
        invariant
            i <= v.len(),
            forall|j: int| 0 <= j < i ==> v@[j].0 != *c,
        decreases v.len() - i,
    {
        if v[i].0.same_command(c) {
            return Some(i);
        }
        i = i + 1;
    }
    None
}

impl<C: CommandTrait> Learner<C> {
    /// The internal representation agrees with the view's invariant.
    pub closed spec fn well_formed(&self) -> bool {
        &&& distinct_commands(self.votes@)
        &&& self@.well_formed()
    }

    /// A well-formed learner has a well-formed view, so the laws stated over views
    /// (such as [`lemma_learning_needs_quorum`]) apply to it.
    pub proof fn lemma_view_well_formed(&self)
        requires
            self.well_formed(),
        ensures
            self@.well_formed(),
    {
    }

    pub fn new(quorum_size: u32) -> (r: Self)
        ensures
            r@.value is None,
            r@.voters == Seq::<SenderId>::empty(),
            r@.tally == Map::<C, nat>::empty(),
            r@.ballot == 0,
            r@.quorum_size == quorum_size,
            r.well_formed(),
    {
        let r = Self { value: None, voters: Vec::new(), votes: Vec::new(), quorum_size, ballot: 0 };
        assert(tally_of(r.votes@) =~= Map::<C, nat>::empty());
        r
    }

    pub fn is_value_learned(&self) -> (r: bool)
        ensures
            r == self@.value is Some,
    {
        self.value.is_some()
    }

    /// Counts a Learn message; returns the learned command when this message makes
    /// a command reach the quorum.
    pub fn handle_learn(&mut self, learn_message: Learn<C>) -> (r: core::result::Result<
        Option<MessageKind<C>>,
        anyhow::Error,
    >)
        requires
            old(self).well_formed(),
        ensures
            final(self).well_formed(),
            r is Ok,
            (final(self)@, r.unwrap()) == learn_step(old(self)@, learn_message),
    {
        if self.is_value_learned() {
            return Ok(None);
        }
        if learn_message.ballot > self.ballot {
            self.ballot = learn_message.ballot;
            self.voters = Vec::new();
            self.votes = Vec::new();
            self.value = None;
            assert(tally_of(self.votes@) =~= Map::<C, nat>::empty());
        }
        let already_counted = contains_sender(&self.voters, learn_message.sender);
        if learn_message.ballot == self.ballot && already_counted {
            return Ok(None);
        }
        if !already_counted {
            self.voters.push(learn_message.sender);
        }
        let ghost t0 = tally_of(self.votes@);
        let pos = find_command(&self.votes, &learn_message.command);
        let count: u32 = match pos {
            Some(i) => {
                proof {
                    lemma_tally_lookup(self.votes@, learn_message.command);
                }
                let c = self.votes[i].1;
                assert(t0.contains_key(learn_message.command));
                assert(c < self.quorum_size);
                let n = c + 1;
                let ghost old_votes = self.votes@;
                self.votes.set(i, (learn_message.command.clone_command(), n));
                proof {
                    assert(old_votes.update(i as int, (old_votes[i as int].0, n)) =~= self.votes@);
                    lemma_tally_update(old_votes, i as int, n);
                }
                n
            },
            None => {
                proof {
                    lemma_tally_lookup(self.votes@, learn_message.command);
                }
                let ghost old_votes = self.votes@;
                self.votes.push((learn_message.command.clone_command(), 1));
                proof {
                    lemma_tally_push(old_votes, learn_message.command, 1);
                }
                1
            },
        };
        if count >= self.quorum_size {
            self.value = Some(learn_message.command.clone_command());
            self.voters = Vec::new();
            self.votes = Vec::new();
            assert(tally_of(self.votes@) =~= Map::<C, nat>::empty());
            return Ok(Some(MessageKind::LearnedCommand { cmd: learn_message.command }));
        }
        proof {
            assert(self@.tally =~= t0.insert(learn_message.command, count as nat));
        }
        Ok(None)
    }

    pub fn value(&self) -> (r: Option<C>)
        ensures
            r == self@.value,
    {
        match &self.value {
            Some(c) => Some(c.clone_command()),
            None => None,
        }
    }
}

impl<C: CommandTrait> Default for Learner<C> {
    /// A learner that waits for three votes.
    fn default() -> (r: Self)
        ensures
            r@.value is None,
            r@.quorum_size == 3,
    {
        Self::new(3)
    }
}

/// Once a learner has learned a command, no Learn message changes it.
pub proof fn lemma_learned_value_is_stable<C>(v: LearnerView<C>, m: Learn<C>)
    requires
        v.value is Some,
    ensures
        learn_step(v, m).0 == v,
        learn_step(v, m).1 is None,
{
}

/// A Learn message of the current ballot from a sender that was already counted is
/// ignored: the learner is unchanged and answers nothing.
pub proof fn lemma_duplicate_vote_ignored<C>(v: LearnerView<C>, m: Learn<C>)
    requires
        v.value is None,
        m.ballot == v.ballot,
        v.voters.contains(m.sender),
    ensures
        learn_step(v, m).0 == v,
        learn_step(v, m).1 is None,
{
}

/// A learner learns command `c` on a message exactly when that message carries `c`
/// and brings the votes for `c` to the quorum size; it then answers with
/// `LearnedCommand` for `c`. Handling a message keeps the learner well formed.
pub proof fn lemma_learning_needs_quorum<C>(v: LearnerView<C>, m: Learn<C>)
    requires
        v.well_formed(),
    ensures
        learn_step(v, m).0.well_formed(),
        v.value is None && learn_step(v, m).0.value is Some ==> {
            let tally0 = if m.ballot > v.ballot {
                Map::<C, nat>::empty()
            } else {
                v.tally
            };
            &&& learn_step(v, m).0.value == Some(m.command)
            &&& votes_for(tally0, m.command) + 1 >= v.quorum_size
            &&& learn_step(v, m).1 == Some(MessageKind::LearnedCommand { cmd: m.command })
        },
        learn_step(v, m).1 is Some ==> v.value is None && learn_step(v, m).0.value is Some,
{
    let (w, _) = learn_step(v, m);
    if v.value is None && m.ballot > v.ballot {
        assert(Seq::<SenderId>::empty().no_duplicates());
    }
    if v.value is None {
        let reset = m.ballot > v.ballot;
        let voters0 = if reset {
            Seq::<SenderId>::empty()
        } else {
            v.voters
        };
        if !voters0.contains(m.sender) {
            let p = voters0.push(m.sender);
            assert forall|i: int, j: int| 0 <= i < p.len() && 0 <= j < p.len() && i != j implies p[i]
                != p[j] by {
                if i < voters0.len() && j < voters0.len() {
                } else if i == voters0.len() {
                    assert(p[i] == m.sender);
                    assert(p[j] == voters0[j]);
                } else {
                    assert(p[j] == m.sender);
                    assert(p[i] == voters0[i]);
                }
            }
        }
    }
}

} // verus!
