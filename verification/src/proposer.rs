//! The proposer: one round at a time, driven by the replies it is handed.
//!
//! A proposer never sends or waits. Each event returns the message to
//! broadcast next, if any; the host delivers it and hands the replies back.

use crate::ballot::{BallotNumber, NodeId};
use crate::membership::{distinct, Membership};
use crate::message::{copy_value, opt_value_view, MessageView, PaxosMessage, Value};
use crate::outcome::ProposalOutcome;
use crate::quorum::{
    granted_senders, has_sender, lemma_granted_count_is_set_size, senders_distinct,
    spec_quorum_size, Outcome, QuorumTracker, Response,
};
use vstd::prelude::*;

verus! {

/// Where a proposer stands in its round.
#[derive(Clone, Copy, Debug, PartialEq, Eq, Structural)]
pub enum Phase {
    /// No round was started yet.
    Idle,
    /// Prepare is out; promises are being collected.
    Preparing,
    /// Accept is out; acknowledgements are being collected.
    Accepting,
    /// A quorum acknowledged: the candidate value is chosen.
    Chosen,
    /// An acceptor is bound to a ballot at or above ours.
    Preempted,
    /// The phase's bound passed without a quorum.
    TimedOut,
}

/// The payload of one promise, as the proposer keeps it.
pub struct PromiseEntry {
    pub sender: NodeId,
    pub accepted: Option<(BallotNumber, Value)>,
}

/// Mathematical content of a [`PromiseEntry`].
pub struct PromiseView {
    pub sender: NodeId,
    pub accepted: Option<(BallotNumber, Seq<u8>)>,
}

impl View for PromiseEntry {
    type V = PromiseView;

    open spec fn view(&self) -> PromiseView {
        PromiseView {
            sender: self.sender,
            accepted: match self.accepted {
                Some((b, v)) => Some((b, v@)),
                None => None,
            },
        }
    }
}

/// The views of a vector of promise entries.
pub open spec fn promise_views(entries: Seq<PromiseEntry>) -> Seq<PromiseView> {
    entries.map_values(|e: PromiseEntry| e@)
}

/// The pair an acceptor reported, when both halves are present.
pub open spec fn accepted_pair(ballot: Option<BallotNumber>, value: Option<Seq<u8>>) -> Option<
    (BallotNumber, Seq<u8>),
> {
    match (ballot, value) {
        (Some(b), Some(v)) => Some((b, v)),
        _ => None,
    }
}

/// The reported pair with the highest ballot; the earliest one on a tie.
pub open spec fn highest_accepted(promises: Seq<PromiseView>) -> Option<(BallotNumber, Seq<u8>)>
    decreases promises.len(),
{
    if promises.len() == 0 {
        None
    } else {
        let best = highest_accepted(promises.drop_last());
        match (best, promises.last().accepted) {
            (Some(b), Some(p)) => if b.0.lt(p.0) {
                Some(p)
            } else {
                Some(b)
            },
            (None, p) => p,
            (b, None) => b,
        }
    }
}

/// The value a proposer must carry into Phase 2: the reported value of the
/// highest reported ballot, or its own when nothing was reported.
pub open spec fn select_value(promises: Seq<PromiseView>, proposed: Seq<u8>) -> Seq<u8> {
    match highest_accepted(promises) {
        Some((_, v)) => v,
        None => proposed,
    }
}

/// Every recorded response is a grant.
pub open spec fn all_granted(s: Seq<Response>) -> bool {
    forall|i: int| 0 <= i < s.len() ==> (#[trigger] s[i]).outcome == Outcome::Granted
}

/// Every recorded sender is a member.
pub open spec fn senders_within(s: Seq<Response>, members: Seq<NodeId>) -> bool {
    forall|i: int| 0 <= i < s.len() ==> members.contains((#[trigger] s[i]).sender)
}

/// Mathematical content of a [`Proposer`].
pub struct ProposerView {
    pub id: NodeId,
    pub members: Seq<NodeId>,
    /// The highest round this proposer has used or was refused for.
    pub highest_round: u64,
    pub phase: Phase,
    pub ballot: BallotNumber,
    pub proposed_value: Seq<u8>,
    pub candidate_value: Seq<u8>,
    pub promise_responses: Seq<Response>,
    pub promises: Seq<PromiseView>,
    pub ack_responses: Seq<Response>,
    pub preempted_by: Option<BallotNumber>,
}

impl ProposerView {
    /// The number of grants a phase needs.
    pub open spec fn quorum(self) -> nat {
        spec_quorum_size(self.members.len())
    }

    /// A round is in flight.
    pub open spec fn in_flight(self) -> bool {
        self.phase == Phase::Preparing || self.phase == Phase::Accepting
    }

    /// The invariant of the round state.
    pub open spec fn wf(self) -> bool {
        &&& distinct(self.members)
        &&& self.phase != Phase::Idle ==> self.ballot.proposer == self.id && self.ballot.round
            <= self.highest_round
        &&& senders_distinct(self.promise_responses)
        &&& senders_distinct(self.ack_responses)
        &&& senders_within(self.promise_responses, self.members)
        &&& senders_within(self.ack_responses, self.members)
        &&& self.phase == Phase::Preparing || self.phase == Phase::Accepting || self.phase
            == Phase::Chosen ==> {
            &&& all_granted(self.promise_responses)
            &&& all_granted(self.ack_responses)
            &&& self.promises.len() == self.promise_responses.len()
            &&& forall|i: int|
                0 <= i < self.promises.len() ==> (#[trigger] self.promises[i]).sender
                    == self.promise_responses[i].sender
        }
        &&& self.phase == Phase::Preparing ==> {
            &&& self.ack_responses.len() == 0
            &&& self.candidate_value == self.proposed_value
            &&& granted_senders(self.promise_responses).len() < self.quorum()
        }
        &&& self.phase == Phase::Accepting ==> {
            &&& granted_senders(self.promise_responses).len() >= self.quorum()
            &&& granted_senders(self.ack_responses).len() < self.quorum()
            &&& self.candidate_value == select_value(self.promises, self.proposed_value)
        }
        &&& self.phase == Phase::Chosen ==> {
            &&& granted_senders(self.promise_responses).len() >= self.quorum()
            &&& granted_senders(self.ack_responses).len() >= self.quorum()
            &&& self.candidate_value == select_value(self.promises, self.proposed_value)
        }
        &&& self.phase == Phase::Preempted ==> (self.preempted_by matches Some(seen)
            && self.ballot.le(seen))
    }

    /// A proposer that has not proposed yet.
    pub open spec fn initial(id: NodeId, members: Seq<NodeId>) -> ProposerView {
        ProposerView {
            id,
            members,
            highest_round: 0,
            phase: Phase::Idle,
            ballot: BallotNumber { round: 0, proposer: id },
            proposed_value: Seq::empty(),
            candidate_value: Seq::empty(),
            promise_responses: Seq::empty(),
            promises: Seq::empty(),
            ack_responses: Seq::empty(),
            preempted_by: None,
        }
    }

    /// The ballot of the next round: one round above every round used or seen.
    pub open spec fn next_ballot(self) -> BallotNumber {
        BallotNumber { round: (self.highest_round + 1) as u64, proposer: self.id }
    }

    /// State after `propose(value)`, when a higher round exists.
    pub open spec fn after_propose(self, value: Seq<u8>) -> ProposerView {
        ProposerView {
            highest_round: (self.highest_round + 1) as u64,
            phase: Phase::Preparing,
            ballot: self.next_ballot(),
            proposed_value: value,
            candidate_value: value,
            promise_responses: Seq::empty(),
            promises: Seq::empty(),
            ack_responses: Seq::empty(),
            preempted_by: None,
            ..self
        }
    }

    /// Whether a promise counts: it answers the Prepare in flight, comes from
    /// a member that has not answered yet, and reports a ballot together with
    /// a value or neither.
    pub open spec fn counts_promise(
        self,
        sender: NodeId,
        ballot: BallotNumber,
        accepted_ballot: Option<BallotNumber>,
        accepted_value: Option<Seq<u8>>,
    ) -> bool {
        &&& self.phase == Phase::Preparing
        &&& ballot == self.ballot
        &&& self.members.contains(sender)
        &&& !has_sender(self.promise_responses, sender)
        &&& (accepted_ballot is Some <==> accepted_value is Some)
    }

    /// State after a promise arrives.
    pub open spec fn after_promise(
        self,
        sender: NodeId,
        ballot: BallotNumber,
        accepted_ballot: Option<BallotNumber>,
        accepted_value: Option<Seq<u8>>,
    ) -> ProposerView {
        if !self.counts_promise(sender, ballot, accepted_ballot, accepted_value) {
            self
        } else {
            let responses = self.promise_responses.push(
                Response { sender, outcome: Outcome::Granted },
            );
            let promises = self.promises.push(
                PromiseView { sender, accepted: accepted_pair(accepted_ballot, accepted_value) },
            );
            if granted_senders(responses).len() >= self.quorum() {
                ProposerView {
                    phase: Phase::Accepting,
                    candidate_value: select_value(promises, self.proposed_value),
                    promise_responses: responses,
                    promises,
                    ..self
                }
            } else {
                ProposerView { promise_responses: responses, promises, ..self }
            }
        }
    }

    /// Whether an acknowledgement counts: it answers the Accept in flight and
    /// comes from a member that has not answered yet.
    pub open spec fn counts_ack(self, sender: NodeId, ballot: BallotNumber) -> bool {
        &&& self.phase == Phase::Accepting
        &&& ballot == self.ballot
        &&& self.members.contains(sender)
        &&& !has_sender(self.ack_responses, sender)
    }

    /// State after an acknowledgement arrives.
    pub open spec fn after_ack(self, sender: NodeId, ballot: BallotNumber) -> ProposerView {
        if !self.counts_ack(sender, ballot) {
            self
        } else {
            let responses = self.ack_responses.push(
                Response { sender, outcome: Outcome::Granted },
            );
            if granted_senders(responses).len() >= self.quorum() {
                ProposerView { phase: Phase::Chosen, ack_responses: responses, ..self }
            } else {
                ProposerView { ack_responses: responses, ..self }
            }
        }
    }

    /// Whether a refusal preempts the round in flight: it names a ballot at or
    /// above ours and comes from a member that has not answered in this phase.
    /// (A refusal naming a lower ballot answers an earlier round.)
    pub open spec fn counts_reject(self, sender: NodeId, seen: BallotNumber) -> bool {
        &&& self.in_flight()
        &&& self.ballot.le(seen)
        &&& self.members.contains(sender)
        &&& !has_sender(
            if self.phase == Phase::Preparing {
                self.promise_responses
            } else {
                self.ack_responses
            },
            sender,
        )
    }

    /// State after a refusal arrives.
    pub open spec fn after_reject(self, sender: NodeId, seen: BallotNumber) -> ProposerView {
        if !self.counts_reject(sender, seen) {
            self
        } else {
            let refusal = Response { sender, outcome: Outcome::Rejected(seen) };
            let highest_round = if seen.round > self.highest_round {
                seen.round
            } else {
                self.highest_round
            };
            if self.phase == Phase::Preparing {
                ProposerView {
                    phase: Phase::Preempted,
                    preempted_by: Some(seen),
                    highest_round,
                    promise_responses: self.promise_responses.push(refusal),
                    ..self
                }
            } else {
                ProposerView {
                    phase: Phase::Preempted,
                    preempted_by: Some(seen),
                    highest_round,
                    ack_responses: self.ack_responses.push(refusal),
                    ..self
                }
            }
        }
    }

    /// The proposer with its round counter raised to `floor`, if it was
    /// lower.
    pub open spec fn with_round_floor(self, floor: u64) -> ProposerView {
        ProposerView {
            highest_round: if floor > self.highest_round {
                floor
            } else {
                self.highest_round
            },
            ..self
        }
    }

    /// State after the phase's bound has passed.
    pub open spec fn after_timeout(self) -> ProposerView {
        if self.in_flight() {
            ProposerView { phase: Phase::TimedOut, ..self }
        } else {
            self
        }
    }

    /// How the round ended, once it has.
    pub open spec fn outcome(self) -> Option<Result<(), ProposalOutcome>> {
        match self.phase {
            Phase::Chosen => Some(Ok(())),
            Phase::Preempted => Some(Err(ProposalOutcome::Preempted(self.preempted_by->0))),
            Phase::TimedOut => Some(Err(ProposalOutcome::TimedOut)),
            _ => None,
        }
    }
}

/// What `highest_accepted` returns: nothing exactly when no promise reports
/// a pair; otherwise a reported pair whose ballot no reported ballot exceeds.
pub proof fn lemma_highest_accepted(promises: Seq<PromiseView>)
    ensures
        highest_accepted(promises) is None <==> forall|i: int|
            0 <= i < promises.len() ==> (#[trigger] promises[i]).accepted is None,
        highest_accepted(promises) matches Some(best) ==> {
            &&& exists|i: int| 0 <= i < promises.len() && (#[trigger] promises[i]).accepted == Some(best)
            &&& forall|i: int|
                0 <= i < promises.len() ==> ((#[trigger] promises[i]).accepted matches Some(p)
                    ==> p.0.le(best.0))
        },
    decreases promises.len(),
{
    if promises.len() > 0 {
        let front = promises.drop_last();
        lemma_highest_accepted(front);
        assert forall|i: int| 0 <= i < front.len() implies front[i] == promises[i] by {}
        match highest_accepted(promises) {
            Some(best) => {
                match (highest_accepted(front), promises.last().accepted) {
                    (Some(b), Some(p)) => {
                        if b.0.lt(p.0) {
                            assert(promises[promises.len() - 1].accepted == Some(best));
                        } else {
                            let i = choose|i: int|
                                0 <= i < front.len() && (#[trigger] front[i]).accepted == Some(b);
                            assert(promises[i].accepted == Some(best));
                        }
                        assert forall|i: int| 0 <= i < promises.len() implies ((
                        #[trigger] promises[i]).accepted matches Some(q) ==> q.0.le(best.0)) by {
                            if i < front.len() {
                                assert(front[i] == promises[i]);
                            }
                        }
                    },
                    (None, Some(p)) => {
                        assert(promises[promises.len() - 1].accepted == Some(best));
                        assert forall|i: int| 0 <= i < promises.len() implies ((
                        #[trigger] promises[i]).accepted matches Some(q) ==> q.0.le(best.0)) by {
                            if i < front.len() {
                                assert(front[i] == promises[i]);
                            }
                        }
                    },
                    (Some(b), None) => {
                        let i = choose|i: int|
                            0 <= i < front.len() && (#[trigger] front[i]).accepted == Some(b);
                        assert(promises[i].accepted == Some(best));
                        assert forall|i: int| 0 <= i < promises.len() implies ((
                        #[trigger] promises[i]).accepted matches Some(q) ==> q.0.le(best.0)) by {
                            if i < front.len() {
                                assert(front[i] == promises[i]);
                            }
                        }
                    },
                    (None, None) => {},
                }
            },
            None => {
                assert forall|i: int| 0 <= i < promises.len() implies (
                #[trigger] promises[i]).accepted is None by {
                    if i < front.len() {
                        assert(front[i] == promises[i]);
                    }
                }
            },
        }
        if highest_accepted(promises) is Some {
            if forall|i: int| 0 <= i < promises.len() ==> (#[trigger] promises[i]).accepted is None {
                let best = highest_accepted(promises)->0;
                let i = choose|i: int|
                    0 <= i < promises.len() && (#[trigger] promises[i]).accepted == Some(best);
                assert(promises[i].accepted is None);
            }
        }
    }
}

/// The proposer role.
pub struct Proposer {
    id: NodeId,
    members: Membership,
    highest_round: u64,
    phase: Phase,
    ballot: BallotNumber,
    proposed_value: Value,
    candidate_value: Value,
    promise_tally: QuorumTracker,
    promises: Vec<PromiseEntry>,
    ack_tally: QuorumTracker,
    preempted_by: Option<BallotNumber>,
}

impl View for Proposer {
    type V = ProposerView;

    closed spec fn view(&self) -> ProposerView {
        ProposerView {
            id: self.id,
            members: self.members@,
            highest_round: self.highest_round,
            phase: self.phase,
            ballot: self.ballot,
            proposed_value: self.proposed_value@,
            candidate_value: self.candidate_value@,
            promise_responses: self.promise_tally@.responses,
            promises: promise_views(self.promises@),
            ack_responses: self.ack_tally@.responses,
            preempted_by: self.preempted_by,
        }
    }
}

/// The highest reported pair among the entries, copied out.
fn highest_accepted_of(entries: &Vec<PromiseEntry>) -> (best: Option<(BallotNumber, Value)>)
    ensures
        match best {
            Some((b, v)) => highest_accepted(promise_views(entries@)) == Some((b, v@)),
            None => highest_accepted(promise_views(entries@)) is None,
        },
{
    let mut best: Option<(BallotNumber, Value)> = None;
    let mut i: usize = 0;
    while i < entries.len()
        invariant
            i <= entries.len(),
            match best {
                Some((b, v)) => highest_accepted(promise_views(entries@.subrange(0, i as int)))
                    == Some((b, v@)),
                None => highest_accepted(promise_views(entries@.subrange(0, i as int))) is None,
            },
        decreases entries.len() - i,
    {
        proof {
            let upto = promise_views(entries@.subrange(0, i + 1));
            assert(upto.drop_last() =~= promise_views(entries@.subrange(0, i as int)));
            assert(upto.last() == entries@[i as int]@);
        }
        match &entries[i].accepted {
            Some((b, v)) => {
                let better = match &best {
                    Some((held, _)) => held.precedes(b),
                    None => true,
                };
                if better {
                    best = Some((*b, copy_value(v)));
                }
            },
            None => {},
        }
        i += 1;
    }
    proof {
        assert(entries@.subrange(0, entries.len() as int) =~= entries@);
    }
    best
}

impl Proposer {
    /// The invariant every proposer keeps.
    pub closed spec fn wf(&self) -> bool {
        &&& self@.wf()
        &&& self.members.wf()
        &&& self.promise_tally.wf()
        &&& self.ack_tally.wf()
        &&& self.promise_tally@.quorum_size == self@.quorum()
        &&& self.ack_tally@.quorum_size == self@.quorum()
    }

    /// What `wf` gives to code outside this module.
    pub proof fn lemma_wf(&self)
        requires
            self.wf(),
        ensures
            self@.wf(),
    {
    }

    /// A proposer for node `id` among the given acceptors.
    pub fn new(id: NodeId, members: Membership) -> (p: Proposer)
        requires
            members.wf(),
        ensures
            p.wf(),
            p@ == ProposerView::initial(id, members@),
    {
        let q = members.quorum_size();
        let p = Proposer {
            id,
            members,
            highest_round: 0,
            phase: Phase::Idle,
            ballot: BallotNumber { round: 0, proposer: id },
            proposed_value: Vec::new(),
            candidate_value: Vec::new(),
            promise_tally: QuorumTracker::new(q),
            promises: Vec::new(),
            ack_tally: QuorumTracker::new(q),
            preempted_by: None,
        };
        proof {
            assert(promise_views(p.promises@) =~= Seq::<PromiseView>::empty());
            assert(p@.proposed_value =~= Seq::<u8>::empty());
            assert(p@.candidate_value =~= Seq::<u8>::empty());
        }
        p
    }

    /// Starts a round for `value` under a ballot above every ballot this
    /// proposer has used or was refused for, abandoning any round in flight.
    /// Returns the Prepare to broadcast. Fails, changing nothing, only when
    /// the round counter is exhausted.
    pub fn propose(&mut self, value: Value) -> (r: Result<PaxosMessage, ProposalOutcome>)
        requires
            old(self).wf(),
        ensures
            final(self).wf(),
            old(self)@.highest_round < u64::MAX ==> {
                &&& final(self)@ == old(self)@.after_propose(value@)
                &&& r is Ok
                &&& r->Ok_0@ == MessageView::Prepare(old(self)@.next_ballot())
            },
            old(self)@.highest_round == u64::MAX ==> {
                &&& final(self)@ == old(self)@
                &&& r == Err::<PaxosMessage, ProposalOutcome>(ProposalOutcome::BallotsExhausted)
            },
    {
        if self.highest_round == u64::MAX {
            return Err(ProposalOutcome::BallotsExhausted);
        }
        let q = self.members.quorum_size();
        let round = self.highest_round + 1;
        let ballot = BallotNumber { round, proposer: self.id };
        self.highest_round = round;
        self.phase = Phase::Preparing;
        self.ballot = ballot;
        self.candidate_value = copy_value(&value);
        self.proposed_value = value;
        self.promise_tally = QuorumTracker::new(q);
        self.promises = Vec::new();
        self.ack_tally = QuorumTracker::new(q);
        self.preempted_by = None;
        proof {
            assert(promise_views(self.promises@) =~= Seq::<PromiseView>::empty());
            assert(granted_senders(Seq::<Response>::empty()) =~= Set::<NodeId>::empty());
            assert(self@ == old(self)@.after_propose(value@));
        }
        Ok(PaxosMessage::Prepare(ballot))
    }

    /// Takes a promise. Once a quorum of distinct members has promised, the
    /// candidate becomes the reported value of the highest reported ballot
    /// (the proposer's own value if none was reported) and the Accept to
    /// broadcast is returned.
    pub fn handle_promise(
        &mut self,
        sender: NodeId,
        ballot: BallotNumber,
        accepted_ballot: Option<BallotNumber>,
        accepted_value: Option<Value>,
    ) -> (send: Option<PaxosMessage>)
        requires
            old(self).wf(),
        ensures
            final(self).wf(),
            final(self)@ == old(self)@.after_promise(
                sender,
                ballot,
                accepted_ballot,
                opt_value_view(accepted_value),
            ),
            final(self)@.phase != old(self)@.phase ==> send is Some && send->0@
                == MessageView::Accept(final(self)@.ballot, final(self)@.candidate_value),
            final(self)@.phase == old(self)@.phase ==> send is None,
    {
        let well_formed = match (&accepted_ballot, &accepted_value) {
            (Some(_), Some(_)) => true,
            (None, None) => true,
            _ => false,
        };
        if !matches!(self.phase, Phase::Preparing) || ballot != self.ballot || !well_formed
            || !self.members.contains(sender) || self.promise_tally.has_response_from(sender) {
            return None;
        }
        let ghost before = self@;
        let accepted = match (accepted_ballot, accepted_value) {
            (Some(b), Some(v)) => Some((b, v)),
            _ => None,
        };
        let entry = PromiseEntry { sender, accepted };
        proof {
            self.promise_tally.lemma_wf();
            assert(entry@ == PromiseView {
                sender,
                accepted: accepted_pair(accepted_ballot, opt_value_view(accepted_value)),
            });
        }
        self.promise_tally.record(sender, Outcome::Granted);
        self.promises.push(entry);
        proof {
            assert(promise_views(self.promises@) =~= before.promises.push(entry@));
            lemma_pushed_grant(before.promise_responses, sender, before.members);
        }
        if self.promise_tally.has_quorum() {
            let chosen = highest_accepted_of(&self.promises);
            match chosen {
                Some((_, v)) => {
                    self.candidate_value = v;
                },
                None => {
                    self.candidate_value = copy_value(&self.proposed_value);
                },
            }
            self.phase = Phase::Accepting;
            proof {
                assert(granted_senders(before.ack_responses) =~= Set::<NodeId>::empty());
                assert(self@ == before.after_promise(
                    sender,
                    ballot,
                    accepted_ballot,
                    opt_value_view(accepted_value),
                ));
            }
            Some(PaxosMessage::Accept(self.ballot, copy_value(&self.candidate_value)))
        } else {
            proof {
                assert(self@ == before.after_promise(
                    sender,
                    ballot,
                    accepted_ballot,
                    opt_value_view(accepted_value),
                ));
            }
            None
        }
    }

    /// Takes an acknowledgement. Once a quorum of distinct members has
    /// acknowledged, the candidate is chosen and the Learn to broadcast is
    /// returned.
    pub fn handle_ack(&mut self, sender: NodeId, ballot: BallotNumber) -> (send: Option<
        PaxosMessage,
    >)
        requires
            old(self).wf(),
        ensures
            final(self).wf(),
            final(self)@ == old(self)@.after_ack(sender, ballot),
            final(self)@.phase != old(self)@.phase ==> send is Some && send->0@
                == MessageView::Learn(final(self)@.candidate_value),
            final(self)@.phase == old(self)@.phase ==> send is None,
    {
        if !matches!(self.phase, Phase::Accepting) || ballot != self.ballot
            || !self.members.contains(sender) || self.ack_tally.has_response_from(sender) {
            return None;
        }
        let ghost before = self@;
        proof {
            self.ack_tally.lemma_wf();
        }
        self.ack_tally.record(sender, Outcome::Granted);
        proof {
            lemma_pushed_grant(before.ack_responses, sender, before.members);
        }
        if self.ack_tally.has_quorum() {
            self.phase = Phase::Chosen;
            Some(PaxosMessage::Learn(copy_value(&self.candidate_value)))
        } else {
            None
        }
    }

    /// Takes a refusal. One that names a ballot at or above ours ends the
    /// round as preempted, at once.
    pub fn handle_reject(&mut self, sender: NodeId, seen: BallotNumber)
        requires
            old(self).wf(),
        ensures
            final(self).wf(),
            final(self)@ == old(self)@.after_reject(sender, seen),
    {
        let preparing = matches!(self.phase, Phase::Preparing);
        let accepting = matches!(self.phase, Phase::Accepting);
        if !(preparing || accepting) || !self.ballot.at_most(&seen) || !self.members.contains(
            sender,
        ) {
            return ;
        }
        let ghost before = self@;
        proof {
            self.promise_tally.lemma_wf();
            self.ack_tally.lemma_wf();
        }
        let preempted = if preparing {
            if self.promise_tally.has_response_from(sender) {
                return ;
            }
            self.promise_tally.record(sender, Outcome::Rejected(seen));
            proof {
                lemma_pushed_refusal(before.promise_responses, sender, seen, before.members);
            }
            self.promise_tally.any_rejection_at_or_above(self.ballot)
        } else {
            if self.ack_tally.has_response_from(sender) {
                return ;
            }
            self.ack_tally.record(sender, Outcome::Rejected(seen));
            proof {
                lemma_pushed_refusal(before.ack_responses, sender, seen, before.members);
            }
            self.ack_tally.any_rejection_at_or_above(self.ballot)
        };
        if preempted {
            self.phase = Phase::Preempted;
            self.preempted_by = Some(seen);
            if seen.round > self.highest_round {
                self.highest_round = seen.round;
            }
        }
    }

    /// The phase's bound has passed: a round in flight ends as timed out.
    pub fn handle_timeout(&mut self)
        requires
            old(self).wf(),
        ensures
            final(self).wf(),
            final(self)@ == old(self)@.after_timeout(),
    {
        match self.phase {
            Phase::Preparing => {
                self.phase = Phase::TimedOut;
            },
            Phase::Accepting => {
                self.phase = Phase::TimedOut;
            },
            _ => {},
        }
    }

    /// Raises the round counter to `floor`, if it was lower. A proposer that
    /// restarts must be given a floor no lower than every round it has used,
    /// or it would issue a ballot twice.
    pub fn raise_round_floor(&mut self, floor: u64)
        requires
            old(self).wf(),
        ensures
            final(self).wf(),
            final(self)@ == old(self)@.with_round_floor(floor),
    {
        if floor > self.highest_round {
            self.highest_round = floor;
        }
    }

    /// The highest round this proposer has used or was refused for: what a
    /// host keeps to resume after a restart.
    pub fn highest_round(&self) -> (r: u64)
        ensures
            r == self@.highest_round,
    {
        self.highest_round
    }

    pub fn phase(&self) -> (p: Phase)
        ensures
            p == self@.phase,
    {
        self.phase
    }

    /// The ballot of the current round.
    pub fn ballot(&self) -> (b: BallotNumber)
        ensures
            b == self@.ballot,
    {
        self.ballot
    }

    /// The value this round tries to get chosen.
    pub fn candidate_value(&self) -> (v: Value)
        ensures
            v@ == self@.candidate_value,
    {
        copy_value(&self.candidate_value)
    }

    /// How the round ended: `None` while idle or in flight.
    pub fn outcome(&self) -> (o: Option<Result<(), ProposalOutcome>>)
        requires
            self.wf(),
        ensures
            o == self@.outcome(),
    {
        match self.phase {
            Phase::Chosen => Some(Ok(())),
            Phase::Preempted => match self.preempted_by {
                Some(seen) => Some(Err(ProposalOutcome::Preempted(seen))),
                None => None,
            },
            Phase::TimedOut => Some(Err(ProposalOutcome::TimedOut)),
            _ => None,
        }
    }
}

/// Recording a grant from a new member keeps the tally's shape.
proof fn lemma_pushed_grant(s: Seq<Response>, sender: NodeId, members: Seq<NodeId>)
    requires
        senders_distinct(s),
        senders_within(s, members),
        all_granted(s),
        members.contains(sender),
        !has_sender(s, sender),
    ensures
        senders_distinct(s.push(Response { sender, outcome: Outcome::Granted })),
        senders_within(s.push(Response { sender, outcome: Outcome::Granted }), members),
        all_granted(s.push(Response { sender, outcome: Outcome::Granted })),
        granted_senders(s.push(Response { sender, outcome: Outcome::Granted })).finite(),
{
    let t = s.push(Response { sender, outcome: Outcome::Granted });
    assert forall|i: int, j: int| 0 <= i < j < t.len() implies t[i].sender != t[j].sender by {
        if j == s.len() {
            assert(s[i].sender != sender);
        } else {
            assert(s[i].sender != s[j].sender);
        }
    }
    assert forall|i: int| 0 <= i < t.len() implies members.contains((#[trigger] t[i]).sender) by {
        if i < s.len() {
            assert(t[i] == s[i]);
        }
    }
    assert forall|i: int| 0 <= i < t.len() implies (#[trigger] t[i]).outcome
        == Outcome::Granted by {
        if i < s.len() {
            assert(t[i] == s[i]);
        }
    }
    lemma_granted_count_is_set_size(t);
}

/// Recording a refusal from a new member keeps senders distinct and within
/// the membership, and the refusal is found again.
proof fn lemma_pushed_refusal(
    s: Seq<Response>,
    sender: NodeId,
    seen: BallotNumber,
    members: Seq<NodeId>,
)
    requires
        senders_distinct(s),
        senders_within(s, members),
        members.contains(sender),
        !has_sender(s, sender),
    ensures
        senders_distinct(s.push(Response { sender, outcome: Outcome::Rejected(seen) })),
        senders_within(s.push(Response { sender, outcome: Outcome::Rejected(seen) }), members),
        forall|b: BallotNumber|
            b.le(seen) ==> crate::quorum::rejected_at_or_above(
                s.push(Response { sender, outcome: Outcome::Rejected(seen) }),
                b,
            ),
{
    let t = s.push(Response { sender, outcome: Outcome::Rejected(seen) });
    assert forall|i: int, j: int| 0 <= i < j < t.len() implies t[i].sender != t[j].sender by {
        if j == s.len() {
            assert(s[i].sender != sender);
        } else {
            assert(s[i].sender != s[j].sender);
        }
    }
    assert forall|i: int| 0 <= i < t.len() implies members.contains((#[trigger] t[i]).sender) by {
        if i < s.len() {
            assert(t[i] == s[i]);
        }
    }
    assert forall|b: BallotNumber| b.le(seen) implies crate::quorum::rejected_at_or_above(t, b) by {
        assert(t[s.len() as int].outcome == Outcome::Rejected(seen));
    }
}

/// Every transition of a proposer keeps the invariant of its round state.
pub proof fn lemma_transitions_keep_wf(
    p: ProposerView,
    sender: NodeId,
    ballot: BallotNumber,
    accepted_ballot: Option<BallotNumber>,
    accepted_value: Option<Seq<u8>>,
    value: Seq<u8>,
    floor: u64,
)
    requires
        p.wf(),
    ensures
        p.highest_round < u64::MAX ==> p.after_propose(value).wf(),
        p.after_promise(sender, ballot, accepted_ballot, accepted_value).wf(),
        p.after_ack(sender, ballot).wf(),
        p.after_reject(sender, ballot).wf(),
        p.after_timeout().wf(),
        p.with_round_floor(floor).wf(),
        ProposerView::initial(p.id, p.members).wf(),
{
    assert(granted_senders(Seq::<Response>::empty()) =~= Set::<NodeId>::empty());
    if p.counts_promise(sender, ballot, accepted_ballot, accepted_value) {
        lemma_pushed_grant(p.promise_responses, sender, p.members);
        assert(granted_senders(p.ack_responses) =~= Set::<NodeId>::empty());
    }
    if p.counts_ack(sender, ballot) {
        lemma_pushed_grant(p.ack_responses, sender, p.members);
    }
    if p.counts_reject(sender, ballot) {
        if p.phase == Phase::Preparing {
            lemma_pushed_refusal(p.promise_responses, sender, ballot, p.members);
        } else {
            lemma_pushed_refusal(p.ack_responses, sender, ballot, p.members);
        }
    }
}

} // verus!
