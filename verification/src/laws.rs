//! Laws of the roles, each stated over the transitions the roles execute.

use crate::acceptor::{AcceptorView, PrepareResultView};
use crate::ballot::{BallotNumber, NodeId};
use crate::message::MessageView;
use crate::node::{NodeView, OutboundView};
use crate::proposer::{
    highest_accepted, lemma_highest_accepted, lemma_transitions_keep_wf, senders_within, Phase,
    ProposerView,
};
use crate::quorum::{granted_senders, senders_distinct, spec_quorum_size};
use vstd::prelude::*;

verus! {

/// Quorum necessity. A round becomes Chosen by no transition but an
/// acknowledgement, and then only with promises from a quorum of distinct
/// members and acknowledgements from a quorum of distinct members; a quorum
/// is more than half of the members.
pub proof fn law_quorum_necessity(
    p: ProposerView,
    sender: NodeId,
    ballot: BallotNumber,
    accepted_ballot: Option<BallotNumber>,
    accepted_value: Option<Seq<u8>>,
    value: Seq<u8>,
    floor: u64,
)
    requires
        p.wf(),
        p.phase != Phase::Chosen,
    ensures
        p.after_propose(value).phase != Phase::Chosen,
        p.after_promise(sender, ballot, accepted_ballot, accepted_value).phase != Phase::Chosen,
        p.after_reject(sender, ballot).phase != Phase::Chosen,
        p.after_timeout().phase != Phase::Chosen,
        p.with_round_floor(floor).phase != Phase::Chosen,
        p.after_ack(sender, ballot).phase == Phase::Chosen ==> {
            let next = p.after_ack(sender, ballot);
            &&& senders_distinct(next.promise_responses)
            &&& senders_distinct(next.ack_responses)
            &&& senders_within(next.promise_responses, next.members)
            &&& senders_within(next.ack_responses, next.members)
            &&& granted_senders(next.promise_responses).len() >= spec_quorum_size(
                next.members.len(),
            )
            &&& granted_senders(next.ack_responses).len() >= spec_quorum_size(next.members.len())
            &&& 2 * spec_quorum_size(next.members.len()) > next.members.len()
        },
{
    lemma_transitions_keep_wf(p, sender, ballot, accepted_ballot, accepted_value, value, floor);
}

/// Value preservation. When a promise completes the quorum, the Accept that
/// goes out carries the candidate; if any counted promise reports an accepted
/// pair, the candidate is the value of a reported pair whose ballot no
/// reported ballot exceeds; if none does, it is the proposer's own value.
pub proof fn law_value_preservation(
    n: NodeView,
    sender: NodeId,
    ballot: BallotNumber,
    accepted_ballot: Option<BallotNumber>,
    accepted_value: Option<Seq<u8>>,
)
    requires
        n.proposer.wf(),
        n.proposer.phase == Phase::Preparing,
        n.proposer.after_promise(sender, ballot, accepted_ballot, accepted_value).phase
            == Phase::Accepting,
    ensures
        ({
            let next = n.proposer.after_promise(sender, ballot, accepted_ballot, accepted_value);
            let reported = exists|i: int|
                0 <= i < next.promises.len() && (#[trigger] next.promises[i]).accepted is Some;
            &&& n.promise_step(sender, ballot, accepted_ballot, accepted_value).send == Some(
                OutboundView::Broadcast(MessageView::Accept(next.ballot, next.candidate_value)),
            )
            &&& next.ballot == n.proposer.ballot
            &&& reported ==> exists|k: int|
                {
                    &&& 0 <= k < next.promises.len()
                    &&& (#[trigger] next.promises[k]).accepted is Some
                    &&& (next.promises[k].accepted->0).1 == next.candidate_value
                    &&& forall|i: int|
                        0 <= i < next.promises.len() ==> ((#[trigger] next.promises[i]).accepted matches Some(
                            pair,
                        ) ==> pair.0.le((next.promises[k].accepted->0).0))
                }
            &&& !reported ==> next.candidate_value == n.proposer.proposed_value
        }),
{
    let next = n.proposer.after_promise(sender, ballot, accepted_ballot, accepted_value);
    lemma_highest_accepted(next.promises);
    match highest_accepted(next.promises) {
        Some(best) => {
            let k = choose|k: int|
                0 <= k < next.promises.len() && (#[trigger] next.promises[k]).accepted == Some(
                    best,
                );
            assert((next.promises[k].accepted->0).1 == next.candidate_value);
        },
        None => {},
    }
}

/// Ballot monotonicity, proposer side. A new round runs under a ballot above
/// the ballot of every earlier round of the same proposer: the round counter
/// bounds the ballot in use, no transition lowers it, and a new round goes
/// one above it.
pub proof fn law_rounds_increase(
    p: ProposerView,
    sender: NodeId,
    ballot: BallotNumber,
    accepted_ballot: Option<BallotNumber>,
    accepted_value: Option<Seq<u8>>,
    value: Seq<u8>,
    floor: u64,
)
    requires
        p.wf(),
    ensures
        p.phase != Phase::Idle ==> p.ballot.round <= p.highest_round,
        p.highest_round < u64::MAX ==> {
            &&& p.after_propose(value).ballot.round == p.highest_round + 1
            &&& p.after_propose(value).ballot.proposer == p.id
            &&& p.phase != Phase::Idle ==> p.ballot.lt(p.after_propose(value).ballot)
            &&& p.after_propose(value).highest_round == p.highest_round + 1
        },
        p.after_promise(sender, ballot, accepted_ballot, accepted_value).highest_round
            == p.highest_round,
        p.after_ack(sender, ballot).highest_round == p.highest_round,
        p.after_reject(sender, ballot).highest_round >= p.highest_round,
        p.after_timeout().highest_round == p.highest_round,
        p.with_round_floor(floor).highest_round >= p.highest_round,
{
}

/// Ballot monotonicity, acceptor side. A Prepare whose ballot is at or below
/// the promised one is refused with the promised ballot, and changes nothing.
pub proof fn law_stale_prepare_is_rejected(
    a: AcceptorView,
    promised: BallotNumber,
    ballot: BallotNumber,
)
    requires
        a.promised == Some(promised),
        ballot.le(promised),
    ensures
        a.prepare_reply(ballot) == PrepareResultView::Rejected(promised),
        a.after_prepare(ballot) == a,
{
}

/// Idempotence. Handling a Prepare or an Accept a second time leaves the
/// acceptor in the state the first handling left it in.
pub proof fn law_replay_is_idempotent(a: AcceptorView, ballot: BallotNumber, value: Seq<u8>)
    ensures
        a.after_prepare(ballot).after_prepare(ballot) == a.after_prepare(ballot),
        a.after_accept(ballot, value).after_accept(ballot, value) == a.after_accept(ballot, value),
        a.consistent() ==> a.after_prepare(ballot).consistent() && a.after_accept(
            ballot,
            value,
        ).consistent(),
{
}

} // verus!
