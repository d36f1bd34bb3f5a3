//! Why a cluster never decides two values.
//!
//! The argument is the classical one. A value is *chosen* at a ballot once a
//! quorum has acknowledged the Accept of that ballot. Every Accept that is
//! ever sent is *safe*: at each lower ballot, some quorum has either voted
//! for the same value or can no longer vote at all. Two quorums share a
//! member, so a value chosen at a lower ballot is the value of every Accept
//! above it.

use crate::ballot::{opt_le, BallotNumber, NodeId};
use crate::membership::distinct;
use crate::message::MessageView;
use crate::proposer::{
    accepted_pair, all_granted, highest_accepted, lemma_highest_accepted, select_value,
    senders_within, Phase, PromiseView,
};
use crate::node::NodeView;
use crate::proposer::{lemma_transitions_keep_wf, ProposerView};
use crate::protocol::{execution, fresh_node, outgoing, sent_by, Cluster, Envelope};
use crate::quorum::{
    granted_senders, lemma_granted_count_is_set_size, senders_distinct, spec_quorum_size, Outcome,
    Response,
};
use vstd::prelude::*;

verus! {

/// `message` was sent from `from` to `to`.
pub open spec fn sent(c: Cluster, from: NodeId, to: NodeId, message: MessageView) -> bool {
    c.network.contains(Envelope { from, to, message })
}

/// The proposer of `ballot` has broadcast `Accept(ballot, value)`.
pub open spec fn accept_sent(c: Cluster, ballot: BallotNumber, value: Seq<u8>) -> bool {
    sent(c, ballot.proposer, ballot.proposer, MessageView::Accept(ballot, value))
}

/// Acceptor `a` has acknowledged the Accept of `ballot`.
pub open spec fn acked(c: Cluster, a: NodeId, ballot: BallotNumber) -> bool {
    sent(c, a, ballot.proposer, MessageView::Ack(ballot))
}

/// Acceptor `a` has answered the Prepare of `ballot` with this promise.
pub open spec fn promise_sent(
    c: Cluster,
    a: NodeId,
    ballot: BallotNumber,
    accepted_ballot: Option<BallotNumber>,
    accepted_value: Option<Seq<u8>>,
) -> bool {
    sent(c, a, ballot.proposer, MessageView::Promise(ballot, accepted_ballot, accepted_value))
}

/// Acceptor `a` has voted for `value` at `ballot`.
pub open spec fn voted(c: Cluster, a: NodeId, ballot: BallotNumber, value: Seq<u8>) -> bool {
    acked(c, a, ballot) && accept_sent(c, ballot, value)
}

/// Acceptor `a` has not voted at `ballot` and, bound to a higher ballot,
/// never will.
pub open spec fn blocked(c: Cluster, a: NodeId, ballot: BallotNumber) -> bool {
    &&& !acked(c, a, ballot)
    &&& c.nodes[a].acceptor.promised matches Some(p) && ballot.lt(p)
}

/// `q` is a quorum: a set of members of majority size.
pub open spec fn is_quorum(members: Seq<NodeId>, q: Set<NodeId>) -> bool {
    &&& q.finite()
    &&& q.subset_of(members.to_set())
    &&& q.len() >= spec_quorum_size(members.len())
}

/// `value` is chosen at `ballot`: a quorum has voted for it there.
pub open spec fn chosen_at(c: Cluster, ballot: BallotNumber, value: Seq<u8>) -> bool {
    &&& accept_sent(c, ballot, value)
    &&& exists|q: Set<NodeId>|
        is_quorum(c.members, q) && forall|a: NodeId| q.contains(a) ==> #[trigger] acked(
            c,
            a,
            ballot,
        )
}

/// `value` is chosen at some ballot.
pub open spec fn chosen(c: Cluster, value: Seq<u8>) -> bool {
    exists|ballot: BallotNumber| chosen_at(c, ballot, value)
}

/// At `ballot`, no value other than `value` can be chosen any more: some
/// quorum consists of voters for `value` and of blocked acceptors.
pub open spec fn none_other_choosable(c: Cluster, ballot: BallotNumber, value: Seq<u8>) -> bool {
    exists|q: Set<NodeId>|
        is_quorum(c.members, q) && forall|a: NodeId|
            q.contains(a) ==> #[trigger] voted(c, a, ballot, value) || blocked(c, a, ballot)
}

/// `value` is safe at `ballot`: below it, nothing else can be chosen.
pub open spec fn safe_at(c: Cluster, ballot: BallotNumber, value: Seq<u8>) -> bool {
    forall|lower: BallotNumber|
        lower.lt(ballot) ==> #[trigger] none_other_choosable(c, lower, value)
}

/// Two quorums of the same membership share a member.
pub proof fn lemma_quorums_intersect(members: Seq<NodeId>, q1: Set<NodeId>, q2: Set<NodeId>) -> (a:
    NodeId)
    requires
        distinct(members),
        is_quorum(members, q1),
        is_quorum(members, q2),
    ensures
        q1.contains(a),
        q2.contains(a),
{
    let all = members.to_set();
    assert(members.no_duplicates());
    members.unique_seq_to_set();
    vstd::seq_lib::seq_to_set_is_finite(members);
    vstd::set_lib::lemma_set_intersect_union_lens(q1, q2);
    assert((q1 + q2).subset_of(all));
    vstd::set_lib::lemma_len_subset(q1 + q2, all);
    let both = q1.intersect(q2);
    vstd::set_lib::lemma_len_intersect(q1, q2);
    assert(both.len() > 0);
    assert(both.finite()) by {
        vstd::set_lib::lemma_len_subset(both, q1);
    }
    vstd::set_lib::lemma_set_empty_equivalency_len(both);
    let a = choose|x: NodeId| both.contains(x);
    a
}

/// Every node is the node of its key, and its roles keep their invariants.
pub open spec fn structure_ok(c: Cluster) -> bool {
    &&& distinct(c.members)
    &&& c.nodes.dom() == c.members.to_set()
    &&& forall|id: NodeId| #[trigger]
        c.members.contains(id) ==> {
            &&& c.nodes[id].node_id == id
            &&& c.nodes[id].proposer.id == id
            &&& c.nodes[id].proposer.members == c.members
            &&& c.nodes[id].proposer.wf()
            &&& c.nodes[id].acceptor.consistent()
        }
}

/// A Prepare comes from the proposer of its ballot.
pub open spec fn prepare_ok(c: Cluster, e: Envelope) -> bool {
    e.message matches MessageView::Prepare(b) ==> e.from == b.proposer
}

/// An Accept comes from the proposer of its ballot, went to every member, is
/// safe, and is the one Accept its proposer sent under that ballot.
pub open spec fn accept_ok(c: Cluster, e: Envelope) -> bool {
    e.message matches MessageView::Accept(b, v) ==> {
        &&& e.from == b.proposer
        &&& c.members.contains(b.proposer)
        &&& accept_sent(c, b, v)
        &&& safe_at(c, b, v)
        &&& b.round <= c.nodes[b.proposer].proposer.highest_round
        &&& (c.nodes[b.proposer].proposer.phase != Phase::Idle && c.nodes[b.proposer].proposer.ballot
            == b) ==> (c.nodes[b.proposer].proposer.phase != Phase::Preparing
            && c.nodes[b.proposer].proposer.candidate_value == v)
    }
}

/// An Ack answers an Accept that was sent, goes to its proposer, and comes
/// from a member that holds that ballot or a higher one as accepted.
pub open spec fn ack_ok(c: Cluster, e: Envelope) -> bool {
    e.message matches MessageView::Ack(b) ==> {
        &&& e.to == b.proposer
        &&& c.members.contains(e.from)
        &&& exists|v: Seq<u8>| accept_sent(c, b, v)
        &&& c.nodes[e.from].acceptor.accepted_ballot matches Some(x) && b.le(x)
    }
}

/// A Promise goes to the proposer of its ballot and comes from a member
/// bound to that ballot or a higher one; the pair it reports is a vote of
/// that member below the ballot, and the member has cast no vote between the
/// two.
pub open spec fn promise_ok(c: Cluster, e: Envelope) -> bool {
    e.message matches MessageView::Promise(b, ab, av) ==> {
        &&& e.to == b.proposer
        &&& c.members.contains(e.from)
        &&& c.nodes[e.from].acceptor.promised matches Some(p) && b.le(p)
        &&& (ab is Some <==> av is Some)
        &&& ab matches Some(x) ==> x.lt(b) && voted(c, e.from, x, av->0)
        &&& forall|lower: BallotNumber|
            #[trigger] acked(c, e.from, lower) && lower.lt(b) ==> (ab matches Some(x) && lower.le(
                x,
            ))
    }
}

/// A Learn carries a chosen value.
pub open spec fn learn_ok(c: Cluster, e: Envelope) -> bool {
    e.message matches MessageView::Learn(v) ==> chosen(c, v)
}

/// Every message sent is in order.
pub open spec fn network_ok(c: Cluster) -> bool {
    forall|e: Envelope| #[trigger]
        c.network.contains(e) ==> {
            &&& prepare_ok(c, e)
            &&& accept_ok(c, e)
            &&& ack_ok(c, e)
            &&& promise_ok(c, e)
            &&& learn_ok(c, e)
        }
}

/// No ballot carries two values.
pub open spec fn one_value_per_ballot(c: Cluster) -> bool {
    forall|b: BallotNumber, v1: Seq<u8>, v2: Seq<u8>|
        #[trigger] accept_sent(c, b, v1) && #[trigger] accept_sent(c, b, v2) ==> v1 == v2
}

/// What an acceptor holds as accepted is a vote it has cast.
pub open spec fn acceptors_ok(c: Cluster) -> bool {
    forall|a: NodeId| #[trigger]
        c.members.contains(a) ==> (c.nodes[a].acceptor.accepted_ballot matches Some(x) ==> voted(
            c,
            a,
            x,
            c.nodes[a].acceptor.accepted_value->0,
        ))
}

/// The promise a proposer recorded under `ballot` was sent by its sender.
pub open spec fn promise_recorded(c: Cluster, ballot: BallotNumber, p: PromiseView) -> bool {
    exists|ab: Option<BallotNumber>, av: Option<Seq<u8>>|
        #[trigger] promise_sent(c, p.sender, ballot, ab, av) && p.accepted == accepted_pair(ab, av)
}

/// What a proposer counts was sent: its promises while it counts them, and,
/// once its Accept is out, that Accept and its acknowledgements.
pub open spec fn proposers_ok(c: Cluster) -> bool {
    forall|p: NodeId| #[trigger]
        c.members.contains(p) ==> {
            let pr = c.nodes[p].proposer;
            &&& (pr.phase == Phase::Preparing || pr.phase == Phase::Accepting || pr.phase
                == Phase::Chosen) ==> forall|i: int|
                0 <= i < pr.promises.len() ==> promise_recorded(c, pr.ballot, #[trigger] pr.promises[i])
            &&& (pr.phase == Phase::Accepting || pr.phase == Phase::Chosen) ==> {
                &&& accept_sent(c, pr.ballot, pr.candidate_value)
                &&& forall|i: int|
                    0 <= i < pr.ack_responses.len() ==> acked(
                        c,
                        (#[trigger] pr.ack_responses[i]).sender,
                        pr.ballot,
                    )
            }
        }
}

/// What a learner has decided is chosen.
pub open spec fn learners_ok(c: Cluster) -> bool {
    forall|n: NodeId| #[trigger]
        c.members.contains(n) ==> (c.nodes[n].learner matches Some(v) ==> chosen(c, v))
}

/// The invariant of every execution.
pub open spec fn inv(c: Cluster) -> bool {
    &&& structure_ok(c)
    &&& network_ok(c)
    &&& one_value_per_ballot(c)
    &&& acceptors_ok(c)
    &&& proposers_ok(c)
    &&& learners_ok(c)
}

/// Under the invariant, at most one value is chosen.
pub proof fn lemma_chosen_is_unique(
    c: Cluster,
    b1: BallotNumber,
    v1: Seq<u8>,
    b2: BallotNumber,
    v2: Seq<u8>,
)
    requires
        inv(c),
        chosen_at(c, b1, v1),
        chosen_at(c, b2, v2),
    ensures
        v1 == v2,
    decreases
            (if b1.lt(b2) {
                0nat
            } else {
                1nat
            }),
{
    if b1 == b2 {
    } else if b1.lt(b2) {
        let e = Envelope {
            from: b2.proposer,
            to: b2.proposer,
            message: MessageView::Accept(b2, v2),
        };
        assert(c.network.contains(e));
        assert(accept_ok(c, e));
        assert(none_other_choosable(c, b1, v2));
        let q2 = choose|q: Set<NodeId>|
            is_quorum(c.members, q) && forall|a: NodeId|
                q.contains(a) ==> #[trigger] voted(c, a, b1, v2) || blocked(c, a, b1);
        let q1 = choose|q: Set<NodeId>|
            is_quorum(c.members, q) && forall|a: NodeId|
                q.contains(a) ==> #[trigger] acked(c, a, b1);
        let a = lemma_quorums_intersect(c.members, q1, q2);
        assert(acked(c, a, b1));
        assert(voted(c, a, b1, v2) || blocked(c, a, b1));
    } else {
        lemma_chosen_is_unique(c, b2, v2, b1, v1);
    }
}

/// `d` is `c` some steps later: nothing sent is lost, no acceptor lowers its
/// promise, and every new vote is cast at or above the voter's promise.
pub open spec fn extends(c: Cluster, d: Cluster) -> bool {
    &&& d.members == c.members
    &&& c.network.subset_of(d.network)
    &&& forall|a: NodeId| #[trigger]
        c.members.contains(a) ==> opt_le(c.nodes[a].acceptor.promised, d.nodes[a].acceptor.promised)
    &&& forall|a: NodeId, b: BallotNumber|
        #[trigger] acked(d, a, b) && !acked(c, a, b) ==> !(c.nodes[a].acceptor.promised matches Some(
            p,
        ) && b.lt(p))
}

/// What cannot be chosen stays so.
pub proof fn lemma_extends_none_other(c: Cluster, d: Cluster, b: BallotNumber, v: Seq<u8>)
    requires
        extends(c, d),
        none_other_choosable(c, b, v),
    ensures
        none_other_choosable(d, b, v),
{
    let q = choose|q: Set<NodeId>|
        is_quorum(c.members, q) && forall|a: NodeId|
            q.contains(a) ==> #[trigger] voted(c, a, b, v) || blocked(c, a, b);
    assert forall|a: NodeId| q.contains(a) implies #[trigger] voted(d, a, b, v) || blocked(
        d,
        a,
        b,
    ) by {
        assert(voted(c, a, b, v) || blocked(c, a, b));
        assert(c.members.to_set().contains(a));
        assert(c.members.contains(a));
        if !voted(c, a, b, v) {
            assert(blocked(c, a, b));
            if acked(d, a, b) {
                assert(false);
            }
        }
    }
}

/// What is safe stays safe.
pub proof fn lemma_extends_safe(c: Cluster, d: Cluster, b: BallotNumber, v: Seq<u8>)
    requires
        extends(c, d),
        safe_at(c, b, v),
    ensures
        safe_at(d, b, v),
{
    assert forall|lower: BallotNumber| lower.lt(b) implies #[trigger] none_other_choosable(
        d,
        lower,
        v,
    ) by {
        assert(none_other_choosable(c, lower, v));
        lemma_extends_none_other(c, d, lower, v);
    }
}

/// What is chosen stays chosen.
pub proof fn lemma_extends_chosen(c: Cluster, d: Cluster, v: Seq<u8>)
    requires
        extends(c, d),
        chosen(c, v),
    ensures
        chosen(d, v),
{
    let b = choose|b: BallotNumber| chosen_at(c, b, v);
    let q = choose|q: Set<NodeId>|
        is_quorum(c.members, q) && forall|a: NodeId| q.contains(a) ==> #[trigger] acked(c, a, b);
    assert forall|a: NodeId| q.contains(a) implies #[trigger] acked(d, a, b) by {
        assert(acked(c, a, b));
    }
    assert(chosen_at(d, b, v));
}

/// The messages of `c` are still in order in `d`, when between the two no
/// acceptor lowered what it holds as accepted, no proposer lowered its round
/// counter, and no proposer went back on an Accept it had sent.
pub proof fn lemma_old_messages_stay_ok(c: Cluster, d: Cluster)
    requires
        inv(c),
        extends(c, d),
        forall|a: NodeId| #[trigger]
            c.members.contains(a) ==> opt_le(
                c.nodes[a].acceptor.accepted_ballot,
                d.nodes[a].acceptor.accepted_ballot,
            ),
        forall|p: NodeId| #[trigger]
            c.members.contains(p) ==> c.nodes[p].proposer.highest_round
                <= d.nodes[p].proposer.highest_round,
        forall|b: BallotNumber, v: Seq<u8>|
            (#[trigger] accept_sent(c, b, v) && d.nodes[b.proposer].proposer.phase != Phase::Idle
                && d.nodes[b.proposer].proposer.ballot == b) ==> (d.nodes[b.proposer].proposer.phase
                != Phase::Preparing && d.nodes[b.proposer].proposer.candidate_value == v),
    ensures
        forall|e: Envelope| #[trigger]
            c.network.contains(e) ==> {
                &&& prepare_ok(d, e)
                &&& accept_ok(d, e)
                &&& ack_ok(d, e)
                &&& promise_ok(d, e)
                &&& learn_ok(d, e)
            },
{
    assert forall|e: Envelope| #[trigger] c.network.contains(e) implies {
        &&& prepare_ok(d, e)
        &&& accept_ok(d, e)
        &&& ack_ok(d, e)
        &&& promise_ok(d, e)
        &&& learn_ok(d, e)
    } by {
        assert(prepare_ok(c, e) && accept_ok(c, e) && ack_ok(c, e) && promise_ok(c, e) && learn_ok(
            c,
            e,
        ));
        match e.message {
            MessageView::Accept(b, v) => {
                lemma_extends_safe(c, d, b, v);
                assert(accept_sent(c, b, v));
            },
            MessageView::Ack(b) => {
                let v = choose|v: Seq<u8>| accept_sent(c, b, v);
                assert(accept_sent(d, b, v));
            },
            MessageView::Promise(b, ab, av) => {
                assert forall|lower: BallotNumber| #[trigger]
                    acked(d, e.from, lower) && lower.lt(b) implies (ab matches Some(x) && lower.le(
                    x,
                )) by {
                    if !acked(c, e.from, lower) {
                        assert(false);
                    }
                }
            },
            MessageView::Learn(v) => {
                lemma_extends_chosen(c, d, v);
            },
            _ => {},
        }
    }
}

/// The parts of the invariant that speak of one node, for node `id`.
pub open spec fn node_ok(c: Cluster, id: NodeId) -> bool {
    let n = c.nodes[id];
    &&& n.node_id == id
    &&& n.proposer.id == id
    &&& n.proposer.members == c.members
    &&& n.proposer.wf()
    &&& n.acceptor.consistent()
    &&& n.acceptor.accepted_ballot matches Some(x) ==> voted(c, id, x, n.acceptor.accepted_value->0)
    &&& (n.proposer.phase == Phase::Preparing || n.proposer.phase == Phase::Accepting
        || n.proposer.phase == Phase::Chosen) ==> forall|i: int|
        0 <= i < n.proposer.promises.len() ==> promise_recorded(
            c,
            n.proposer.ballot,
            #[trigger] n.proposer.promises[i],
        )
    &&& (n.proposer.phase == Phase::Accepting || n.proposer.phase == Phase::Chosen) ==> {
        &&& accept_sent(c, n.proposer.ballot, n.proposer.candidate_value)
        &&& forall|i: int|
            0 <= i < n.proposer.ack_responses.len() ==> acked(
                c,
                (#[trigger] n.proposer.ack_responses[i]).sender,
                n.proposer.ballot,
            )
    }
    &&& n.learner matches Some(v) ==> chosen(c, v)
}

/// The invariant holds after a step in which one node, `id`, moved and some
/// messages were added, when the node is in order afterwards, the messages
/// added are in order, and the step lowered nothing.
pub proof fn lemma_assemble(c: Cluster, d: Cluster, id: NodeId)
    requires
        inv(c),
        c.members.contains(id),
        d.members == c.members,
        d.nodes == c.nodes.insert(id, d.nodes[id]),
        c.network.subset_of(d.network),
        node_ok(d, id),
        opt_le(c.nodes[id].acceptor.promised, d.nodes[id].acceptor.promised),
        opt_le(c.nodes[id].acceptor.accepted_ballot, d.nodes[id].acceptor.accepted_ballot),
        c.nodes[id].proposer.highest_round <= d.nodes[id].proposer.highest_round,
        forall|a: NodeId, b: BallotNumber|
            #[trigger] acked(d, a, b) && !acked(c, a, b) ==> !(c.nodes[a].acceptor.promised matches Some(
                p,
            ) && b.lt(p)),
        forall|b: BallotNumber, v: Seq<u8>|
            (#[trigger] accept_sent(c, b, v) && b.proposer == id && d.nodes[id].proposer.phase
                != Phase::Idle && d.nodes[id].proposer.ballot == b) ==> (d.nodes[id].proposer.phase
                != Phase::Preparing && d.nodes[id].proposer.candidate_value == v),
        forall|e: Envelope|
            #[trigger] d.network.contains(e) && !c.network.contains(e) ==> {
                &&& prepare_ok(d, e)
                &&& accept_ok(d, e)
                &&& ack_ok(d, e)
                &&& promise_ok(d, e)
                &&& learn_ok(d, e)
            },
        one_value_per_ballot(d),
    ensures
        inv(d),
        extends(c, d),
{
    assert forall|a: NodeId| #[trigger] c.members.contains(a) implies opt_le(
        c.nodes[a].acceptor.promised,
        d.nodes[a].acceptor.promised,
    ) && opt_le(c.nodes[a].acceptor.accepted_ballot, d.nodes[a].acceptor.accepted_ballot)
        && c.nodes[a].proposer.highest_round <= d.nodes[a].proposer.highest_round by {
        if a != id {
            assert(d.nodes[a] == c.nodes[a]);
        }
    }
    assert(extends(c, d));
    assert forall|b: BallotNumber, v: Seq<u8>|
        (#[trigger] accept_sent(c, b, v) && d.nodes[b.proposer].proposer.phase != Phase::Idle
            && d.nodes[b.proposer].proposer.ballot == b) implies (
    d.nodes[b.proposer].proposer.phase != Phase::Preparing
        && d.nodes[b.proposer].proposer.candidate_value == v) by {
        let e = Envelope { from: b.proposer, to: b.proposer, message: MessageView::Accept(b, v) };
        assert(c.network.contains(e));
        assert(accept_ok(c, e));
        if b.proposer != id {
            assert(d.nodes[b.proposer] == c.nodes[b.proposer]);
        }
    }
    lemma_old_messages_stay_ok(c, d);
    assert(network_ok(d)) by {
        assert forall|e: Envelope| #[trigger] d.network.contains(e) implies {
            &&& prepare_ok(d, e)
            &&& accept_ok(d, e)
            &&& ack_ok(d, e)
            &&& promise_ok(d, e)
            &&& learn_ok(d, e)
        } by {
            if c.network.contains(e) {
            }
        }
    }
    assert(d.nodes.dom() =~= c.nodes.dom()) by {
        assert(c.nodes.dom().contains(id));
    }
    assert forall|n: NodeId| #[trigger] d.members.contains(n) implies node_ok(d, n) by {
        if n != id {
            assert(d.nodes[n] == c.nodes[n]);
            let x = c.nodes[n];
            let pr = x.proposer;
            if pr.phase == Phase::Preparing || pr.phase == Phase::Accepting || pr.phase
                == Phase::Chosen {
                assert forall|i: int| 0 <= i < pr.promises.len() implies promise_recorded(
                    d,
                    pr.ballot,
                    #[trigger] pr.promises[i],
                ) by {
                    assert(promise_recorded(c, pr.ballot, pr.promises[i]));
                    let (ab, av) = choose|ab: Option<BallotNumber>, av: Option<Seq<u8>>|
                        #[trigger] promise_sent(c, pr.promises[i].sender, pr.ballot, ab, av)
                            && pr.promises[i].accepted == accepted_pair(ab, av);
                    assert(promise_sent(d, pr.promises[i].sender, pr.ballot, ab, av));
                }
            }
            if pr.phase == Phase::Accepting || pr.phase == Phase::Chosen {
                assert forall|i: int| 0 <= i < pr.ack_responses.len() implies acked(
                    d,
                    (#[trigger] pr.ack_responses[i]).sender,
                    pr.ballot,
                ) by {
                    assert(acked(c, pr.ack_responses[i].sender, pr.ballot));
                }
            }
            if x.learner is Some {
                lemma_extends_chosen(c, d, x.learner->0);
            }
        }
    }
}

/// A step in which one node moved extends the cluster, when the node did not
/// lower its promise and every vote added is at or above the voter's promise.
pub proof fn lemma_step_extends(c: Cluster, d: Cluster, id: NodeId)
    requires
        c.members.contains(id),
        d.members == c.members,
        d.nodes == c.nodes.insert(id, d.nodes[id]),
        c.network.subset_of(d.network),
        opt_le(c.nodes[id].acceptor.promised, d.nodes[id].acceptor.promised),
        forall|a: NodeId, b: BallotNumber|
            #[trigger] acked(d, a, b) && !acked(c, a, b) ==> !(c.nodes[a].acceptor.promised matches Some(
                p,
            ) && b.lt(p)),
    ensures
        extends(c, d),
{
    assert forall|a: NodeId| #[trigger] c.members.contains(a) implies opt_le(
        c.nodes[a].acceptor.promised,
        d.nodes[a].acceptor.promised,
    ) by {
        if a != id {
            assert(d.nodes[a] == c.nodes[a]);
        }
    }
}

/// What node `id` holds of votes, promises, acknowledgements and decisions
/// stays true as the cluster extends, as long as the node itself stands
/// still.
pub proof fn lemma_node_facts_extend(c: Cluster, d: Cluster, id: NodeId, n: NodeView)
    requires
        extends(c, d),
        node_ok(c, id),
        n.node_id == id,
        n.proposer.id == id,
        n.proposer.members == c.members,
        n.proposer.wf(),
        n.acceptor.consistent(),
        n.acceptor.accepted_ballot == c.nodes[id].acceptor.accepted_ballot,
        n.acceptor.accepted_value == c.nodes[id].acceptor.accepted_value,
        n.learner matches Some(v) ==> chosen(c, v),
        (n.proposer.phase == Phase::Preparing || n.proposer.phase == Phase::Accepting
            || n.proposer.phase == Phase::Chosen) ==> forall|i: int|
            0 <= i < n.proposer.promises.len() ==> promise_recorded(
                c,
                n.proposer.ballot,
                #[trigger] n.proposer.promises[i],
            ),
        (n.proposer.phase == Phase::Accepting || n.proposer.phase == Phase::Chosen) ==> {
            &&& accept_sent(d, n.proposer.ballot, n.proposer.candidate_value)
            &&& forall|i: int|
                0 <= i < n.proposer.ack_responses.len() ==> acked(
                    c,
                    (#[trigger] n.proposer.ack_responses[i]).sender,
                    n.proposer.ballot,
                )
        },
        d.nodes[id] == n,
    ensures
        node_ok(d, id),
{
    let pr = n.proposer;
    if pr.phase == Phase::Preparing || pr.phase == Phase::Accepting || pr.phase == Phase::Chosen {
        assert forall|i: int| 0 <= i < pr.promises.len() implies promise_recorded(
            d,
            pr.ballot,
            #[trigger] pr.promises[i],
        ) by {
            assert(promise_recorded(c, pr.ballot, pr.promises[i]));
            let (ab, av) = choose|ab: Option<BallotNumber>, av: Option<Seq<u8>>|
                #[trigger] promise_sent(c, pr.promises[i].sender, pr.ballot, ab, av)
                    && pr.promises[i].accepted == accepted_pair(ab, av);
            assert(promise_sent(d, pr.promises[i].sender, pr.ballot, ab, av));
        }
    }
    if pr.phase == Phase::Accepting || pr.phase == Phase::Chosen {
        assert forall|i: int| 0 <= i < pr.ack_responses.len() implies acked(
            d,
            (#[trigger] pr.ack_responses[i]).sender,
            pr.ballot,
        ) by {
            assert(acked(c, pr.ack_responses[i].sender, pr.ballot));
        }
    }
    if n.learner is Some {
        lemma_extends_chosen(c, d, n.learner->0);
    }
}

/// The invariant gives each member its part.
pub proof fn lemma_inv_node(c: Cluster, id: NodeId)
    requires
        inv(c),
        c.members.contains(id),
    ensures
        node_ok(c, id),
{
}

/// The invariant holds at bootstrap.
pub proof fn lemma_init_inv(c: Cluster)
    requires
        c.init(),
    ensures
        inv(c),
{
    assert forall|id: NodeId| #[trigger] c.members.contains(id) implies node_ok(c, id) by {
        assert(c.nodes[id] == fresh_node(id, c.members));
    }
}

/// Starting a round keeps the invariant.
pub proof fn lemma_propose_inv(c: Cluster, d: Cluster, id: NodeId, value: Seq<u8>)
    requires
        inv(c),
        c.propose(d, id, value),
    ensures
        inv(d),
        extends(c, d),
{
    let old = c.nodes[id];
    let pr = old.proposer;
    lemma_inv_node(c, id);
    lemma_transitions_keep_wf(pr, id, pr.ballot, None, None, value, 0);
    assert(d.nodes[id] == NodeView { proposer: pr.after_propose(value), ..old });
    assert forall|a: NodeId, b: BallotNumber| #[trigger] acked(d, a, b) implies acked(c, a, b) by {}
    lemma_step_extends(c, d, id);
    lemma_node_facts_extend(c, d, id, d.nodes[id]);
    assert forall|b: BallotNumber, v: Seq<u8>| #[trigger] accept_sent(d, b, v) implies accept_sent(
        c,
        b,
        v,
    ) by {}
    assert forall|b: BallotNumber, v: Seq<u8>|
        (#[trigger] accept_sent(c, b, v) && b.proposer == id && d.nodes[id].proposer.phase
            != Phase::Idle && d.nodes[id].proposer.ballot == b) implies (
    d.nodes[id].proposer.phase != Phase::Preparing && d.nodes[id].proposer.candidate_value
        == v) by {
        let e = Envelope { from: b.proposer, to: b.proposer, message: MessageView::Accept(b, v) };
        assert(c.network.contains(e));
        assert(accept_ok(c, e));
    }
    lemma_assemble(c, d, id);
}

/// A timeout keeps the invariant.
pub proof fn lemma_timeout_inv(c: Cluster, d: Cluster, id: NodeId)
    requires
        inv(c),
        c.timeout(d, id),
    ensures
        inv(d),
        extends(c, d),
{
    let old = c.nodes[id];
    let pr = old.proposer;
    lemma_inv_node(c, id);
    lemma_transitions_keep_wf(pr, id, pr.ballot, None, None, Seq::empty(), 0);
    assert(d.nodes[id] == NodeView { proposer: pr.after_timeout(), ..old });
    lemma_step_extends(c, d, id);
    lemma_node_facts_extend(c, d, id, d.nodes[id]);
    assert forall|b: BallotNumber, v: Seq<u8>|
        (#[trigger] accept_sent(c, b, v) && b.proposer == id && d.nodes[id].proposer.phase
            != Phase::Idle && d.nodes[id].proposer.ballot == b) implies (
    d.nodes[id].proposer.phase != Phase::Preparing && d.nodes[id].proposer.candidate_value
        == v) by {
        let e = Envelope { from: b.proposer, to: b.proposer, message: MessageView::Accept(b, v) };
        assert(c.network.contains(e));
        assert(accept_ok(c, e));
    }
    lemma_assemble(c, d, id);
}

/// A restart keeps the invariant.
pub proof fn lemma_restart_inv(c: Cluster, d: Cluster, id: NodeId, floor: u64)
    requires
        inv(c),
        c.restart(d, id, floor),
    ensures
        inv(d),
        extends(c, d),
{
    let old = c.nodes[id];
    let pr = old.proposer;
    lemma_inv_node(c, id);
    lemma_transitions_keep_wf(pr, id, pr.ballot, None, None, Seq::empty(), floor);
    lemma_transitions_keep_wf(
        ProposerView::initial(id, c.members),
        id,
        pr.ballot,
        None,
        None,
        Seq::empty(),
        floor,
    );
    assert(d.nodes[id] == NodeView {
        proposer: ProposerView::initial(id, c.members).with_round_floor(floor),
        learner: None,
        ..old
    });
    lemma_step_extends(c, d, id);
    lemma_node_facts_extend(c, d, id, d.nodes[id]);
    lemma_assemble(c, d, id);
}

/// What is true of every delivery: the message delivered is in order, its
/// receiver is in order, and the new cluster differs in that one node and in
/// the messages its answer adds.
pub proof fn lemma_deliver_basics(c: Cluster, d: Cluster, e: Envelope)
    requires
        inv(c),
        c.deliver(d, e),
    ensures
        node_ok(c, e.to),
        prepare_ok(c, e),
        accept_ok(c, e),
        ack_ok(c, e),
        promise_ok(c, e),
        learn_ok(c, e),
        d.nodes == c.nodes.insert(e.to, d.nodes[e.to]),
        d.nodes[e.to] == c.nodes[e.to].after_message(e.from, e.message),
        c.network.subset_of(d.network),
        forall|x: Envelope|
            d.network.contains(x) <==> c.network.contains(x) || outgoing(
                e.to,
                e.from,
                c.members,
                sent_by(c.nodes[e.to].response_to(e.from, e.message)),
            ).contains(x),
{
    lemma_inv_node(c, e.to);
}

/// A proposer that keeps its ballot and candidate, and does not fall back to
/// collecting promises, stands by every Accept it sent.
pub proof fn lemma_stands_by_accepts(c: Cluster, d: Cluster, id: NodeId)
    requires
        inv(c),
        c.members.contains(id),
        d.nodes[id].proposer.phase == Phase::Idle || {
            &&& d.nodes[id].proposer.ballot == c.nodes[id].proposer.ballot
            &&& d.nodes[id].proposer.candidate_value == c.nodes[id].proposer.candidate_value
            &&& c.nodes[id].proposer.phase != Phase::Idle
            &&& d.nodes[id].proposer.phase == Phase::Preparing ==> c.nodes[id].proposer.phase
                == Phase::Preparing
        },
    ensures
        forall|b: BallotNumber, v: Seq<u8>|
            (#[trigger] accept_sent(c, b, v) && b.proposer == id && d.nodes[id].proposer.phase
                != Phase::Idle && d.nodes[id].proposer.ballot == b) ==> (
            d.nodes[id].proposer.phase != Phase::Preparing
                && d.nodes[id].proposer.candidate_value == v),
{
    assert forall|b: BallotNumber, v: Seq<u8>|
        (#[trigger] accept_sent(c, b, v) && b.proposer == id && d.nodes[id].proposer.phase
            != Phase::Idle && d.nodes[id].proposer.ballot == b) implies (
    d.nodes[id].proposer.phase != Phase::Preparing && d.nodes[id].proposer.candidate_value
        == v) by {
        let e = Envelope { from: b.proposer, to: b.proposer, message: MessageView::Accept(b, v) };
        assert(c.network.contains(e));
        assert(accept_ok(c, e));
    }
}

/// Delivering a Prepare keeps the invariant.
pub proof fn lemma_deliver_prepare_inv(c: Cluster, d: Cluster, e: Envelope)
    requires
        inv(c),
        c.deliver(d, e),
        e.message is Prepare,
    ensures
        inv(d),
        extends(c, d),
{
    let id = e.to;
    let b = e.message->Prepare_0;
    let old = c.nodes[id];
    lemma_deliver_basics(c, d, e);
    assert(d.nodes[id] == NodeView { acceptor: old.acceptor.after_prepare(b), ..old });
    assert forall|a: NodeId, x: BallotNumber| #[trigger] acked(d, a, x) implies acked(c, a, x) by {}
    lemma_step_extends(c, d, id);
    lemma_node_facts_extend(c, d, id, d.nodes[id]);
    assert forall|x: BallotNumber, v: Seq<u8>| #[trigger] accept_sent(d, x, v) implies accept_sent(
        c,
        x,
        v,
    ) by {}
    lemma_stands_by_accepts(c, d, id);
    assert forall|x: Envelope| #[trigger]
        d.network.contains(x) && !c.network.contains(x) implies {
        &&& prepare_ok(d, x)
        &&& accept_ok(d, x)
        &&& ack_ok(d, x)
        &&& promise_ok(d, x)
        &&& learn_ok(d, x)
    } by {
        if x.message is Promise {
            let ab = old.acceptor.accepted_ballot;
            let av = old.acceptor.accepted_value;
            assert(x.message == MessageView::Promise(b, ab, av));
            assert(x.from == id && x.to == e.from);
            assert forall|lower: BallotNumber| #[trigger]
                acked(d, id, lower) && lower.lt(b) implies (ab matches Some(y) && lower.le(y)) by {
                let k = Envelope { from: id, to: lower.proposer, message: MessageView::Ack(lower) };
                assert(c.network.contains(k));
                assert(ack_ok(c, k));
            }
        }
    }
    lemma_assemble(c, d, id);
}

/// Delivering an Accept keeps the invariant.
pub proof fn lemma_deliver_accept_inv(c: Cluster, d: Cluster, e: Envelope)
    requires
        inv(c),
        c.deliver(d, e),
        e.message is Accept,
    ensures
        inv(d),
        extends(c, d),
{
    let id = e.to;
    let b = e.message->Accept_0;
    let v = e.message->Accept_1;
    let old = c.nodes[id];
    lemma_deliver_basics(c, d, e);
    assert(d.nodes[id] == NodeView { acceptor: old.acceptor.after_accept(b, v), ..old });
    assert(accept_sent(c, b, v));
    assert forall|a: NodeId, x: BallotNumber| #[trigger]
        acked(d, a, x) && !acked(c, a, x) implies !(c.nodes[a].acceptor.promised matches Some(p)
        && x.lt(p)) by {
        let k = Envelope { from: a, to: x.proposer, message: MessageView::Ack(x) };
        assert(d.network.contains(k));
        assert(a == id && x == b);
    }
    lemma_step_extends(c, d, id);
    assert forall|x: BallotNumber, w: Seq<u8>| #[trigger] accept_sent(d, x, w) implies accept_sent(
        c,
        x,
        w,
    ) by {}
    lemma_stands_by_accepts(c, d, id);
    if old.acceptor.refuses_accept(b) {
        lemma_node_facts_extend(c, d, id, d.nodes[id]);
    } else {
        let k = Envelope { from: id, to: b.proposer, message: MessageView::Ack(b) };
        assert(d.network.contains(k));
        assert(voted(d, id, b, v));
        let n = d.nodes[id];
        let pr = n.proposer;
        if pr.phase == Phase::Preparing || pr.phase == Phase::Accepting || pr.phase
            == Phase::Chosen {
            assert forall|i: int| 0 <= i < pr.promises.len() implies promise_recorded(
                d,
                pr.ballot,
                #[trigger] pr.promises[i],
            ) by {
                assert(promise_recorded(c, pr.ballot, pr.promises[i]));
                let (ab, av) = choose|ab: Option<BallotNumber>, av: Option<Seq<u8>>|
                    #[trigger] promise_sent(c, pr.promises[i].sender, pr.ballot, ab, av)
                        && pr.promises[i].accepted == accepted_pair(ab, av);
                assert(promise_sent(d, pr.promises[i].sender, pr.ballot, ab, av));
            }
        }
        if pr.phase == Phase::Accepting || pr.phase == Phase::Chosen {
            assert forall|i: int| 0 <= i < pr.ack_responses.len() implies acked(
                d,
                (#[trigger] pr.ack_responses[i]).sender,
                pr.ballot,
            ) by {
                assert(acked(c, pr.ack_responses[i].sender, pr.ballot));
            }
        }
        if n.learner is Some {
            lemma_extends_chosen(c, d, n.learner->0);
        }
        assert(node_ok(d, id));
    }
    assert forall|x: Envelope| #[trigger]
        d.network.contains(x) && !c.network.contains(x) implies {
        &&& prepare_ok(d, x)
        &&& accept_ok(d, x)
        &&& ack_ok(d, x)
        &&& promise_ok(d, x)
        &&& learn_ok(d, x)
    } by {
        if x.message is Ack {
            assert(x.message == MessageView::Ack(b));
            assert(accept_sent(d, b, v));
        }
    }
    lemma_assemble(c, d, id);
}

/// Delivering a Reject keeps the invariant.
pub proof fn lemma_deliver_reject_inv(c: Cluster, d: Cluster, e: Envelope)
    requires
        inv(c),
        c.deliver(d, e),
        e.message is Reject,
    ensures
        inv(d),
        extends(c, d),
{
    let id = e.to;
    let seen = e.message->Reject_0;
    let old = c.nodes[id];
    let pr = old.proposer;
    lemma_deliver_basics(c, d, e);
    lemma_transitions_keep_wf(pr, e.from, seen, None, None, Seq::empty(), 0);
    assert(d.nodes[id] == NodeView { proposer: pr.after_reject(e.from, seen), ..old });
    assert forall|a: NodeId, x: BallotNumber| #[trigger] acked(d, a, x) implies acked(c, a, x) by {}
    lemma_step_extends(c, d, id);
    lemma_node_facts_extend(c, d, id, d.nodes[id]);
    assert forall|x: BallotNumber, v: Seq<u8>| #[trigger] accept_sent(d, x, v) implies accept_sent(
        c,
        x,
        v,
    ) by {}
    lemma_stands_by_accepts(c, d, id);
    lemma_assemble(c, d, id);
}

/// Delivering a Learn keeps the invariant.
pub proof fn lemma_deliver_learn_inv(c: Cluster, d: Cluster, e: Envelope)
    requires
        inv(c),
        c.deliver(d, e),
        e.message is Learn,
    ensures
        inv(d),
        extends(c, d),
{
    let id = e.to;
    let v = e.message->Learn_0;
    let old = c.nodes[id];
    lemma_deliver_basics(c, d, e);
    assert(d.nodes[id] == NodeView { learner: crate::learner::after_learn(old.learner, v), ..old });
    assert forall|a: NodeId, x: BallotNumber| #[trigger] acked(d, a, x) implies acked(c, a, x) by {}
    lemma_step_extends(c, d, id);
    assert(chosen(c, v));
    lemma_node_facts_extend(c, d, id, d.nodes[id]);
    assert forall|x: BallotNumber, w: Seq<u8>| #[trigger] accept_sent(d, x, w) implies accept_sent(
        c,
        x,
        w,
    ) by {}
    lemma_stands_by_accepts(c, d, id);
    lemma_assemble(c, d, id);
}

/// Delivering an Ack keeps the invariant.
pub proof fn lemma_deliver_ack_inv(c: Cluster, d: Cluster, e: Envelope)
    requires
        inv(c),
        c.deliver(d, e),
        e.message is Ack,
    ensures
        inv(d),
        extends(c, d),
{
    let id = e.to;
    let b = e.message->Ack_0;
    let old = c.nodes[id];
    let pr = old.proposer;
    let next = pr.after_ack(e.from, b);
    lemma_deliver_basics(c, d, e);
    lemma_transitions_keep_wf(pr, e.from, b, None, None, Seq::empty(), 0);
    assert(d.nodes[id] == NodeView { proposer: next, ..old });
    assert forall|a: NodeId, x: BallotNumber| #[trigger] acked(d, a, x) implies acked(c, a, x) by {}
    lemma_step_extends(c, d, id);
    assert forall|x: BallotNumber, v: Seq<u8>| #[trigger] accept_sent(d, x, v) implies accept_sent(
        c,
        x,
        v,
    ) by {}
    lemma_stands_by_accepts(c, d, id);
    if pr.counts_ack(e.from, b) {
        assert(acked(c, e.from, pr.ballot));
        assert forall|i: int| 0 <= i < next.ack_responses.len() implies acked(
            c,
            (#[trigger] next.ack_responses[i]).sender,
            next.ballot,
        ) by {
            if i < pr.ack_responses.len() {
                assert(next.ack_responses[i] == pr.ack_responses[i]);
            }
        }
    }
    lemma_node_facts_extend(c, d, id, d.nodes[id]);
    assert forall|x: Envelope| #[trigger]
        d.network.contains(x) && !c.network.contains(x) implies {
        &&& prepare_ok(d, x)
        &&& accept_ok(d, x)
        &&& ack_ok(d, x)
        &&& promise_ok(d, x)
        &&& learn_ok(d, x)
    } by {
        assert(x.message == MessageView::Learn(next.candidate_value));
        assert(next.phase == Phase::Chosen);
        let q = crate::quorum::granted_senders(next.ack_responses);
        crate::quorum::lemma_granted_count_is_set_size(next.ack_responses);
        assert forall|a: NodeId| q.contains(a) implies #[trigger] acked(d, a, next.ballot)
            && c.members.to_set().contains(a) by {
            let i = choose|i: int|
                0 <= i < next.ack_responses.len() && next.ack_responses[i] == (
                crate::quorum::Response { sender: a, outcome: crate::quorum::Outcome::Granted });
            assert(acked(d, next.ack_responses[i].sender, next.ballot));
            assert(c.members.contains(next.ack_responses[i].sender));
        }
        assert(is_quorum(d.members, q));
        assert(chosen_at(d, next.ballot, next.candidate_value));
    }
    lemma_assemble(c, d, id);
}

/// The value selected from a quorum of promises made under `ballot` is safe
/// at `ballot`.
pub proof fn lemma_promises_make_safe(
    c: Cluster,
    ballot: BallotNumber,
    responses: Seq<Response>,
    promises: Seq<PromiseView>,
    proposed: Seq<u8>,
)
    requires
        inv(c),
        senders_distinct(responses),
        all_granted(responses),
        senders_within(responses, c.members),
        promises.len() == responses.len(),
        forall|i: int|
            0 <= i < promises.len() ==> (#[trigger] promises[i]).sender == responses[i].sender,
        granted_senders(responses).len() >= spec_quorum_size(c.members.len()),
        forall|i: int|
            0 <= i < promises.len() ==> promise_recorded(c, ballot, #[trigger] promises[i]),
    ensures
        safe_at(c, ballot, select_value(promises, proposed)),
{
    let v = select_value(promises, proposed);
    let best = highest_accepted(promises);
    let q = granted_senders(responses);
    lemma_granted_count_is_set_size(responses);
    lemma_highest_accepted(promises);
    assert(is_quorum(c.members, q)) by {
        assert forall|a: NodeId| q.contains(a) implies c.members.to_set().contains(a) by {
            let i = choose|i: int|
                0 <= i < responses.len() && responses[i] == (Response {
                    sender: a,
                    outcome: Outcome::Granted,
                });
            assert(c.members.contains(responses[i].sender));
        }
    }
    assert forall|lower: BallotNumber| lower.lt(ballot) implies #[trigger] none_other_choosable(
        c,
        lower,
        v,
    ) by {
        if best is Some && lower.lt((best->0).0) {
            let (mb, mv) = best->0;
            let k = choose|k: int|
                0 <= k < promises.len() && (#[trigger] promises[k]).accepted == Some((mb, mv));
            assert(promise_recorded(c, ballot, promises[k]));
            let (ab, av) = choose|ab: Option<BallotNumber>, av: Option<Seq<u8>>|
                #[trigger] promise_sent(c, promises[k].sender, ballot, ab, av)
                    && promises[k].accepted == accepted_pair(ab, av);
            let pe = Envelope {
                from: promises[k].sender,
                to: ballot.proposer,
                message: MessageView::Promise(ballot, ab, av),
            };
            assert(c.network.contains(pe));
            assert(promise_ok(c, pe));
            assert(accept_sent(c, mb, mv));
            let ae = Envelope {
                from: mb.proposer,
                to: mb.proposer,
                message: MessageView::Accept(mb, mv),
            };
            assert(c.network.contains(ae));
            assert(accept_ok(c, ae));
            assert(none_other_choosable(c, lower, mv));
        } else {
            assert forall|a: NodeId| q.contains(a) implies #[trigger] voted(c, a, lower, v)
                || blocked(c, a, lower) by {
                let i = choose|i: int|
                    0 <= i < responses.len() && responses[i] == (Response {
                        sender: a,
                        outcome: Outcome::Granted,
                    });
                assert(promises[i].sender == a);
                assert(promise_recorded(c, ballot, promises[i]));
                let (ab, av) = choose|ab: Option<BallotNumber>, av: Option<Seq<u8>>|
                    #[trigger] promise_sent(c, promises[i].sender, ballot, ab, av)
                        && promises[i].accepted == accepted_pair(ab, av);
                let pe = Envelope {
                    from: a,
                    to: ballot.proposer,
                    message: MessageView::Promise(ballot, ab, av),
                };
                assert(c.network.contains(pe));
                assert(promise_ok(c, pe));
                if acked(c, a, lower) {
                    assert(ab is Some && lower.le((ab->0)));
                    assert(promises[i].accepted == Some((ab->0, av->0)));
                    let (mb, mv) = best->0;
                    assert((ab->0).le(mb));
                    assert(lower == mb && ab->0 == mb);
                    let k = choose|k: int|
                        0 <= k < promises.len() && (#[trigger] promises[k]).accepted == Some(
                            (mb, mv),
                        );
                    assert(promise_recorded(c, ballot, promises[k]));
                    let (kb, kv) = choose|kb: Option<BallotNumber>, kv: Option<Seq<u8>>|
                        #[trigger] promise_sent(c, promises[k].sender, ballot, kb, kv)
                            && promises[k].accepted == accepted_pair(kb, kv);
                    let ke = Envelope {
                        from: promises[k].sender,
                        to: ballot.proposer,
                        message: MessageView::Promise(ballot, kb, kv),
                    };
                    assert(c.network.contains(ke));
                    assert(promise_ok(c, ke));
                    assert(accept_sent(c, mb, mv));
                    assert(accept_sent(c, mb, av->0));
                    assert(av->0 == mv);
                }
            }
        }
    }
}

/// Delivering a Promise keeps the invariant.
pub proof fn lemma_deliver_promise_inv(c: Cluster, d: Cluster, e: Envelope)
    requires
        inv(c),
        c.deliver(d, e),
        e.message is Promise,
    ensures
        inv(d),
        extends(c, d),
{
    let id = e.to;
    let b = e.message->Promise_0;
    let ab = e.message->Promise_1;
    let av = e.message->Promise_2;
    let old = c.nodes[id];
    let pr = old.proposer;
    let next = pr.after_promise(e.from, b, ab, av);
    lemma_deliver_basics(c, d, e);
    lemma_transitions_keep_wf(pr, e.from, b, ab, av, Seq::empty(), 0);
    assert(d.nodes[id] == NodeView { proposer: next, ..old });
    assert forall|a: NodeId, x: BallotNumber| #[trigger] acked(d, a, x) implies acked(c, a, x) by {}
    lemma_step_extends(c, d, id);
    if !pr.counts_promise(e.from, b, ab, av) {
        assert(next == pr);
        lemma_node_facts_extend(c, d, id, d.nodes[id]);
        assert forall|x: BallotNumber, v: Seq<u8>| #[trigger]
            accept_sent(d, x, v) implies accept_sent(c, x, v) by {}
        lemma_stands_by_accepts(c, d, id);
        lemma_assemble(c, d, id);
    } else {
        let entry = PromiseView { sender: e.from, accepted: accepted_pair(ab, av) };
        assert(promise_sent(c, e.from, pr.ballot, ab, av));
        assert(promise_recorded(c, pr.ballot, entry));
        assert forall|i: int| 0 <= i < next.promises.len() implies promise_recorded(
            c,
            next.ballot,
            #[trigger] next.promises[i],
        ) by {
            if i < pr.promises.len() {
                assert(next.promises[i] == pr.promises[i]);
            } else {
                assert(next.promises[i] == entry);
            }
        }
        // No Accept was sent under this ballot yet.
        assert forall|v: Seq<u8>| !#[trigger] accept_sent(c, pr.ballot, v) by {
            if accept_sent(c, pr.ballot, v) {
                let k = Envelope { from: id, to: id, message: MessageView::Accept(pr.ballot, v) };
                assert(c.network.contains(k));
                assert(accept_ok(c, k));
            }
        }
        if next.phase == Phase::Accepting {
            let cand = next.candidate_value;
            lemma_promises_make_safe(
                c,
                next.ballot,
                next.promise_responses,
                next.promises,
                pr.proposed_value,
            );
            lemma_extends_safe(c, d, next.ballot, cand);
            let k = Envelope { from: id, to: id, message: MessageView::Accept(next.ballot, cand) };
            assert(d.network.contains(k));
            assert(accept_sent(d, next.ballot, cand));
            lemma_node_facts_extend(c, d, id, d.nodes[id]);
            assert forall|x: BallotNumber, v: Seq<u8>| #[trigger]
                accept_sent(d, x, v) implies accept_sent(c, x, v) || (x == next.ballot && v
                == cand) by {}
            assert(one_value_per_ballot(d)) by {
                assert forall|x: BallotNumber, v1: Seq<u8>, v2: Seq<u8>|
                    #[trigger] accept_sent(d, x, v1) && #[trigger] accept_sent(
                        d,
                        x,
                        v2,
                    ) implies v1 == v2 by {
                    if x == next.ballot {
                        assert(!accept_sent(c, pr.ballot, v1));
                        assert(!accept_sent(c, pr.ballot, v2));
                    } else {
                        assert(accept_sent(c, x, v1) && accept_sent(c, x, v2));
                    }
                }
            }
            assert forall|x: Envelope| #[trigger]
                d.network.contains(x) && !c.network.contains(x) implies {
                &&& prepare_ok(d, x)
                &&& accept_ok(d, x)
                &&& ack_ok(d, x)
                &&& promise_ok(d, x)
                &&& learn_ok(d, x)
            } by {
                assert(x.message == MessageView::Accept(next.ballot, cand));
                assert(x.from == id);
            }
            lemma_assemble(c, d, id);
        } else {
            lemma_node_facts_extend(c, d, id, d.nodes[id]);
            assert forall|x: BallotNumber, v: Seq<u8>| #[trigger]
                accept_sent(d, x, v) implies accept_sent(c, x, v) by {}
            lemma_stands_by_accepts(c, d, id);
            lemma_assemble(c, d, id);
        }
    }
}

/// Every delivery keeps the invariant.
pub proof fn lemma_deliver_inv(c: Cluster, d: Cluster, e: Envelope)
    requires
        inv(c),
        c.deliver(d, e),
    ensures
        inv(d),
        extends(c, d),
{
    match e.message {
        MessageView::Prepare(_) => lemma_deliver_prepare_inv(c, d, e),
        MessageView::Promise(_, _, _) => lemma_deliver_promise_inv(c, d, e),
        MessageView::Accept(_, _) => lemma_deliver_accept_inv(c, d, e),
        MessageView::Ack(_) => lemma_deliver_ack_inv(c, d, e),
        MessageView::Reject(_) => lemma_deliver_reject_inv(c, d, e),
        MessageView::Learn(_) => lemma_deliver_learn_inv(c, d, e),
    }
}

/// Every step keeps the invariant, and loses nothing.
pub proof fn lemma_step_inv(c: Cluster, d: Cluster)
    requires
        inv(c),
        c.step(d),
    ensures
        inv(d),
        extends(c, d),
{
    if exists|id: NodeId, value: Seq<u8>| c.propose(d, id, value) {
        let (id, value) = choose|id: NodeId, value: Seq<u8>| c.propose(d, id, value);
        lemma_propose_inv(c, d, id, value);
    } else if exists|e: Envelope| c.deliver(d, e) {
        let e = choose|e: Envelope| c.deliver(d, e);
        lemma_deliver_inv(c, d, e);
    } else if exists|id: NodeId| c.timeout(d, id) {
        let id = choose|id: NodeId| c.timeout(d, id);
        lemma_timeout_inv(c, d, id);
    } else {
        let (id, floor) = choose|id: NodeId, floor: u64| c.restart(d, id, floor);
        lemma_restart_inv(c, d, id, floor);
    }
}

/// The invariant holds throughout an execution, and what is chosen at one
/// point of it is chosen at every later point.
pub proof fn lemma_execution_inv(trace: Seq<Cluster>, i: int, j: int)
    requires
        execution(trace),
        0 <= i <= j < trace.len(),
    ensures
        inv(trace[i]),
        inv(trace[j]),
        forall|v: Seq<u8>| chosen(trace[i], v) ==> chosen(trace[j], v),
        trace[j].members == trace[0].members,
    decreases j,
{
    if j == 0 {
        lemma_init_inv(trace[0]);
    } else if i == j {
        lemma_execution_inv(trace, j - 1, j - 1);
        lemma_step_inv(trace[j - 1], trace[j]);
    } else {
        lemma_execution_inv(trace, i, j - 1);
        lemma_step_inv(trace[j - 1], trace[j]);
        assert forall|v: Seq<u8>| chosen(trace[i], v) implies chosen(trace[j], v) by {
            lemma_extends_chosen(trace[j - 1], trace[j], v);
        }
    }
}

/// Safety. In an execution — any interleaving of proposals, deliveries (late,
/// repeated, out of order or never), timeouts and restarts — no two members
/// ever hold different decisions, at the same point or at different ones.
pub proof fn theorem_safety(
    trace: Seq<Cluster>,
    i: int,
    j: int,
    n: NodeId,
    m: NodeId,
    v: Seq<u8>,
    w: Seq<u8>,
)
    requires
        execution(trace),
        0 <= i <= j < trace.len(),
        trace[0].members.contains(n),
        trace[0].members.contains(m),
        trace[i].nodes[n].learner == Some(v),
        trace[j].nodes[m].learner == Some(w),
    ensures
        v == w,
{
    lemma_execution_inv(trace, i, j);
    lemma_execution_inv(trace, 0, i);
    lemma_inv_node(trace[i], n);
    lemma_inv_node(trace[j], m);
    assert(chosen(trace[j], v));
    assert(chosen(trace[j], w));
    let b1 = choose|b: BallotNumber| chosen_at(trace[j], b, v);
    let b2 = choose|b: BallotNumber| chosen_at(trace[j], b, w);
    lemma_chosen_is_unique(trace[j], b1, v, b2, w);
}

} // verus!
