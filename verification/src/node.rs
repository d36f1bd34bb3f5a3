//! One participant: acceptor, proposer and learner behind a single dispatch.
//!
//! A node performs no I/O. Each inbound message yields a [`Step`]: the
//! acceptor state to write durably first, if it changed, and the message to
//! send next, if any. The host persists, then sends.

use crate::acceptor::{AcceptResult, Acceptor, AcceptorState, AcceptorView, PrepareResult, PrepareResultView};
use crate::ballot::{BallotNumber, NodeId};
use crate::learner::{after_learn, learn_conflicts, Learner};
use crate::membership::Membership;
use crate::message::{opt_value_view, MessageView, PaxosMessage, Value};
use crate::outcome::{ConsistencyError, ProposalOutcome};
use crate::proposer::{Proposer, ProposerView};
use vstd::prelude::*;

verus! {

/// A message on its way out.
#[derive(Debug)]
pub enum Outbound {
    /// To the sender of the message being handled.
    Reply(PaxosMessage),
    /// To every member, this node included.
    Broadcast(PaxosMessage),
}

/// Mathematical content of an [`Outbound`].
pub enum OutboundView {
    Reply(MessageView),
    Broadcast(MessageView),
}

impl View for Outbound {
    type V = OutboundView;

    open spec fn view(&self) -> OutboundView {
        match *self {
            Outbound::Reply(m) => OutboundView::Reply(m@),
            Outbound::Broadcast(m) => OutboundView::Broadcast(m@),
        }
    }
}

/// What the host must do after an event, in this order: write `persist`
/// durably, then deliver `send`.
#[derive(Debug)]
pub struct Step {
    pub persist: Option<AcceptorState>,
    pub send: Option<Outbound>,
}

/// Mathematical content of a [`Step`].
pub struct StepView {
    pub persist: Option<AcceptorView>,
    pub send: Option<OutboundView>,
}

impl View for Step {
    type V = StepView;

    open spec fn view(&self) -> StepView {
        StepView {
            persist: match self.persist {
                Some(s) => Some(s@),
                None => None,
            },
            send: match self.send {
                Some(o) => Some(o@),
                None => None,
            },
        }
    }
}

impl StepView {
    /// Nothing to persist, nothing to send.
    pub open spec fn nothing() -> StepView {
        StepView { persist: None, send: None }
    }
}

/// The content of a fallible step.
pub open spec fn step_result_view(r: Result<Step, ConsistencyError>) -> Result<
    StepView,
    ConsistencyError,
> {
    match r {
        Ok(s) => Ok(s@),
        Err(e) => Err(e),
    }
}

/// The message that carries an acceptor's answer to `Prepare(ballot)`.
pub open spec fn prepare_reply_message(ballot: BallotNumber, r: PrepareResultView) -> MessageView {
    match r {
        PrepareResultView::Promised(ab, av) => MessageView::Promise(ballot, ab, av),
        PrepareResultView::Rejected(p) => MessageView::Reject(p),
    }
}

/// The message that carries an acceptor's answer to an Accept.
pub open spec fn accept_reply_message(r: AcceptResult) -> MessageView {
    match r {
        AcceptResult::Acked(b) => MessageView::Ack(b),
        AcceptResult::Rejected(p) => MessageView::Reject(p),
    }
}

/// Mathematical content of a [`PaxosNode`].
pub struct NodeView {
    pub node_id: NodeId,
    pub acceptor: AcceptorView,
    pub proposer: ProposerView,
    pub learner: Option<Seq<u8>>,
}

impl NodeView {
    /// The step that answers `Prepare(ballot)`.
    pub open spec fn prepare_step(self, ballot: BallotNumber) -> StepView {
        StepView {
            persist: if self.acceptor.refuses_prepare(ballot) {
                None
            } else {
                Some(self.acceptor.after_prepare(ballot))
            },
            send: Some(
                OutboundView::Reply(
                    prepare_reply_message(ballot, self.acceptor.prepare_reply(ballot)),
                ),
            ),
        }
    }

    /// The step that answers `Accept(ballot, value)`.
    pub open spec fn accept_step(self, ballot: BallotNumber, value: Seq<u8>) -> StepView {
        StepView {
            persist: if self.acceptor.refuses_accept(ballot) {
                None
            } else {
                Some(self.acceptor.after_accept(ballot, value))
            },
            send: Some(OutboundView::Reply(accept_reply_message(self.acceptor.accept_reply(ballot)))),
        }
    }

    /// The step that follows a promise: the Accept, when the promise
    /// completed a quorum.
    pub open spec fn promise_step(
        self,
        sender: NodeId,
        ballot: BallotNumber,
        accepted_ballot: Option<BallotNumber>,
        accepted_value: Option<Seq<u8>>,
    ) -> StepView {
        let next = self.proposer.after_promise(sender, ballot, accepted_ballot, accepted_value);
        StepView {
            persist: None,
            send: if next.phase != self.proposer.phase {
                Some(OutboundView::Broadcast(MessageView::Accept(next.ballot, next.candidate_value)))
            } else {
                None
            },
        }
    }

    /// The step that follows an acknowledgement: the Learn, when the
    /// acknowledgement completed a quorum.
    pub open spec fn ack_step(self, sender: NodeId, ballot: BallotNumber) -> StepView {
        let next = self.proposer.after_ack(sender, ballot);
        StepView {
            persist: None,
            send: if next.phase != self.proposer.phase {
                Some(OutboundView::Broadcast(MessageView::Learn(next.candidate_value)))
            } else {
                None
            },
        }
    }

    /// The node after `message` from `sender` was handled.
    pub open spec fn after_message(self, sender: NodeId, message: MessageView) -> NodeView {
        match message {
            MessageView::Prepare(b) => NodeView { acceptor: self.acceptor.after_prepare(b), ..self },
            MessageView::Accept(b, v) => NodeView {
                acceptor: self.acceptor.after_accept(b, v),
                ..self
            },
            MessageView::Promise(b, ab, av) => NodeView {
                proposer: self.proposer.after_promise(sender, b, ab, av),
                ..self
            },
            MessageView::Ack(b) => NodeView { proposer: self.proposer.after_ack(sender, b), ..self },
            MessageView::Reject(seen) => NodeView {
                proposer: self.proposer.after_reject(sender, seen),
                ..self
            },
            MessageView::Learn(v) => NodeView { learner: after_learn(self.learner, v), ..self },
        }
    }

    /// What handling `message` from `sender` hands to the host.
    pub open spec fn response_to(self, sender: NodeId, message: MessageView) -> Result<
        StepView,
        ConsistencyError,
    > {
        match message {
            MessageView::Prepare(b) => Ok(self.prepare_step(b)),
            MessageView::Accept(b, v) => Ok(self.accept_step(b, v)),
            MessageView::Promise(b, ab, av) => Ok(self.promise_step(sender, b, ab, av)),
            MessageView::Ack(b) => Ok(self.ack_step(sender, b)),
            MessageView::Reject(_) => Ok(StepView::nothing()),
            MessageView::Learn(v) => if learn_conflicts(self.learner, v) {
                Err(ConsistencyError::ConflictingDecision)
            } else {
                Ok(StepView::nothing())
            },
        }
    }
}

/// One participant of the cluster.
pub struct PaxosNode {
    node_id: NodeId,
    acceptor: Acceptor,
    proposer: Proposer,
    learner: Learner,
}

impl View for PaxosNode {
    type V = NodeView;

    closed spec fn view(&self) -> NodeView {
        NodeView {
            node_id: self.node_id,
            acceptor: self.acceptor@,
            proposer: self.proposer@,
            learner: self.learner@,
        }
    }
}

impl PaxosNode {
    /// The invariant every node keeps.
    pub closed spec fn wf(&self) -> bool {
        &&& self.acceptor.wf()
        &&& self.proposer.wf()
        &&& self.learner.wf()
        &&& self.proposer@.id == self.node_id
    }

    /// What `wf` gives to code outside this module.
    pub proof fn lemma_wf(&self)
        requires
            self.wf(),
        ensures
            self@.acceptor.consistent(),
            self@.proposer.wf(),
            self@.proposer.id == self@.node_id,
    {
        self.proposer.lemma_wf();
    }

    /// A node at bootstrap, among the given acceptors.
    pub fn new(node_id: NodeId, members: Membership) -> (n: PaxosNode)
        requires
            members.wf(),
        ensures
            n.wf(),
            n@ == (NodeView {
                node_id,
                acceptor: AcceptorView::initial(),
                proposer: ProposerView::initial(node_id, members@),
                learner: None,
            }),
    {
        PaxosNode {
            node_id,
            acceptor: Acceptor::new(),
            proposer: Proposer::new(node_id, members),
            learner: Learner::new(),
        }
    }

    /// A node restarting from its persisted acceptor state. Proposer and
    /// learner state is volatile and starts afresh. State that violates the
    /// persisted invariant is refused.
    pub fn restore(node_id: NodeId, members: Membership, state: AcceptorState) -> (r: Result<
        PaxosNode,
        ConsistencyError,
    >)
        requires
            members.wf(),
        ensures
            state@.consistent() ==> r is Ok && r->Ok_0.wf() && r->Ok_0@ == (NodeView {
                node_id,
                acceptor: state@,
                proposer: ProposerView::initial(node_id, members@),
                learner: None,
            }),
            !state@.consistent() ==> r is Err && r->Err_0 == ConsistencyError::CorruptAcceptorState,
    {
        match Acceptor::restore(state) {
            Ok(acceptor) => Ok(
                PaxosNode {
                    node_id,
                    acceptor,
                    proposer: Proposer::new(node_id, members),
                    learner: Learner::new(),
                },
            ),
            Err(e) => Err(e),
        }
    }

    pub fn node_id(&self) -> (id: NodeId)
        ensures
            id == self@.node_id,
    {
        self.node_id
    }

    /// Dispatches an inbound message to the role it addresses.
    pub fn handle_message(&mut self, sender: NodeId, message: PaxosMessage) -> (r: Result<
        Step,
        ConsistencyError,
    >)
        requires
            old(self).wf(),
        ensures
            final(self).wf(),
            final(self)@ == old(self)@.after_message(sender, message@),
            step_result_view(r) == old(self)@.response_to(sender, message@),
    {
        match message {
            PaxosMessage::Prepare(b) => Ok(self.handle_prepare(b)),
            PaxosMessage::Promise(b, ab, av) => Ok(self.handle_promise(sender, b, ab, av)),
            PaxosMessage::Accept(b, v) => Ok(self.handle_accept(b, v)),
            PaxosMessage::Ack(b) => Ok(self.handle_ack(sender, b)),
            PaxosMessage::Reject(seen) => Ok(self.handle_reject(sender, seen)),
            PaxosMessage::Learn(v) => self.handle_learn(v),
        }
    }

    /// Acceptor side of Phase 1.
    pub fn handle_prepare(&mut self, ballot: BallotNumber) -> (step: Step)
        requires
            old(self).wf(),
        ensures
            final(self).wf(),
            final(self)@ == (NodeView {
                acceptor: old(self)@.acceptor.after_prepare(ballot),
                ..old(self)@
            }),
            step@ == old(self)@.prepare_step(ballot),
    {
        match self.acceptor.handle_prepare(ballot) {
            PrepareResult::Promised(ab, av) => Step {
                persist: Some(self.acceptor.state()),
                send: Some(Outbound::Reply(PaxosMessage::Promise(ballot, ab, av))),
            },
            PrepareResult::Rejected(p) => Step {
                persist: None,
                send: Some(Outbound::Reply(PaxosMessage::Reject(p))),
            },
        }
    }

    /// Acceptor side of Phase 2.
    pub fn handle_accept(&mut self, ballot: BallotNumber, value: Value) -> (step: Step)
        requires
            old(self).wf(),
        ensures
            final(self).wf(),
            final(self)@ == (NodeView {
                acceptor: old(self)@.acceptor.after_accept(ballot, value@),
                ..old(self)@
            }),
            step@ == old(self)@.accept_step(ballot, value@),
    {
        match self.acceptor.handle_accept(ballot, value) {
            AcceptResult::Acked(b) => Step {
                persist: Some(self.acceptor.state()),
                send: Some(Outbound::Reply(PaxosMessage::Ack(b))),
            },
            AcceptResult::Rejected(p) => Step {
                persist: None,
                send: Some(Outbound::Reply(PaxosMessage::Reject(p))),
            },
        }
    }

    /// Proposer side of Phase 1.
    pub fn handle_promise(
        &mut self,
        sender: NodeId,
        ballot: BallotNumber,
        accepted_ballot: Option<BallotNumber>,
        accepted_value: Option<Value>,
    ) -> (step: Step)
        requires
            old(self).wf(),
        ensures
            final(self).wf(),
            final(self)@ == (NodeView {
                proposer: old(self)@.proposer.after_promise(
                    sender,
                    ballot,
                    accepted_ballot,
                    opt_value_view(accepted_value),
                ),
                ..old(self)@
            }),
            step@ == old(self)@.promise_step(
                sender,
                ballot,
                accepted_ballot,
                opt_value_view(accepted_value),
            ),
    {
        match self.proposer.handle_promise(sender, ballot, accepted_ballot, accepted_value) {
            Some(m) => Step { persist: None, send: Some(Outbound::Broadcast(m)) },
            None => Step { persist: None, send: None },
        }
    }

    /// Proposer side of Phase 2.
    pub fn handle_ack(&mut self, sender: NodeId, ballot: BallotNumber) -> (step: Step)
        requires
            old(self).wf(),
        ensures
            final(self).wf(),
            final(self)@ == (NodeView {
                proposer: old(self)@.proposer.after_ack(sender, ballot),
                ..old(self)@
            }),
            step@ == old(self)@.ack_step(sender, ballot),
    {
        match self.proposer.handle_ack(sender, ballot) {
            Some(m) => Step { persist: None, send: Some(Outbound::Broadcast(m)) },
            None => Step { persist: None, send: None },
        }
    }

    /// A refusal reached the proposer.
    pub fn handle_reject(&mut self, sender: NodeId, seen: BallotNumber) -> (step: Step)
        requires
            old(self).wf(),
        ensures
            final(self).wf(),
            final(self)@ == (NodeView {
                proposer: old(self)@.proposer.after_reject(sender, seen),
                ..old(self)@
            }),
            step@ == StepView::nothing(),
    {
        self.proposer.handle_reject(sender, seen);
        Step { persist: None, send: None }
    }

    /// The decision reached the learner.
    pub fn handle_learn(&mut self, value: Value) -> (r: Result<Step, ConsistencyError>)
        requires
            old(self).wf(),
        ensures
            final(self).wf(),
            final(self)@ == (NodeView {
                learner: after_learn(old(self)@.learner, value@),
                ..old(self)@
            }),
            learn_conflicts(old(self)@.learner, value@) ==> r is Err && r->Err_0
                == ConsistencyError::ConflictingDecision,
            !learn_conflicts(old(self)@.learner, value@) ==> r is Ok && r->Ok_0@
                == StepView::nothing(),
    {
        match self.learner.handle_learn(value) {
            Ok(()) => Ok(Step { persist: None, send: None }),
            Err(e) => Err(e),
        }
    }

    /// Starts a round for `value`. The step carries the Prepare to broadcast.
    /// Fails, changing nothing, only when the round counter is exhausted.
    pub fn propose(&mut self, value: Value) -> (r: Result<Step, ProposalOutcome>)
        requires
            old(self).wf(),
        ensures
            final(self).wf(),
            old(self)@.proposer.highest_round < u64::MAX ==> {
                &&& final(self)@ == (NodeView {
                    proposer: old(self)@.proposer.after_propose(value@),
                    ..old(self)@
                })
                &&& r is Ok
                &&& r->Ok_0@ == (StepView {
                    persist: None,
                    send: Some(
                        OutboundView::Broadcast(
                            MessageView::Prepare(old(self)@.proposer.next_ballot()),
                        ),
                    ),
                })
            },
            old(self)@.proposer.highest_round == u64::MAX ==> {
                &&& final(self)@ == old(self)@
                &&& r is Err
                &&& r->Err_0 == ProposalOutcome::BallotsExhausted
            },
    {
        match self.proposer.propose(value) {
            Ok(m) => Ok(Step { persist: None, send: Some(Outbound::Broadcast(m)) }),
            Err(e) => Err(e),
        }
    }

    /// The phase's bound has passed.
    pub fn handle_timeout(&mut self)
        requires
            old(self).wf(),
        ensures
            final(self).wf(),
            final(self)@ == (NodeView {
                proposer: old(self)@.proposer.after_timeout(),
                ..old(self)@
            }),
    {
        self.proposer.handle_timeout();
    }

    /// Raises the proposer's round counter to `floor`, if it was lower. To be
    /// called after `restore` with the value of `highest_round` last kept.
    pub fn raise_round_floor(&mut self, floor: u64)
        requires
            old(self).wf(),
        ensures
            final(self).wf(),
            final(self)@ == (NodeView {
                proposer: old(self)@.proposer.with_round_floor(floor),
                ..old(self)@
            }),
    {
        self.proposer.raise_round_floor(floor);
    }

    /// The highest round this node has used or was refused for.
    pub fn highest_round(&self) -> (r: u64)
        ensures
            r == self@.proposer.highest_round,
    {
        self.proposer.highest_round()
    }

    /// How this node's round ended: `None` while idle or in flight.
    pub fn outcome(&self) -> (o: Option<Result<(), ProposalOutcome>>)
        requires
            self.wf(),
        ensures
            o == self@.proposer.outcome(),
    {
        self.proposer.outcome()
    }

    /// The value this node has learned, if any.
    pub fn decided_value(&self) -> (v: Option<Value>)
        ensures
            opt_value_view(v) == self@.learner,
    {
        self.learner.decided_value()
    }

    /// The acceptor state as it must stand on durable storage.
    pub fn acceptor_state(&self) -> (s: AcceptorState)
        ensures
            s@ == self@.acceptor,
    {
        self.acceptor.state()
    }
}

} // verus!
