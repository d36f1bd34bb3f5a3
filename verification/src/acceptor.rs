//! The acceptor: the durable voting role and the safety anchor of the protocol.

use crate::ballot::{opt_le, BallotNumber};
use crate::message::{copy_opt_value, opt_value_view, Value};
use crate::outcome::ConsistencyError;
use vstd::prelude::*;

verus! {

/// What an acceptor must keep across crashes.
#[derive(Debug)]
pub struct AcceptorState {
    pub highest_promised_ballot: Option<BallotNumber>,
    pub accepted_ballot: Option<BallotNumber>,
    pub accepted_value: Option<Value>,
}

/// Mathematical content of [`AcceptorState`].
pub struct AcceptorView {
    pub promised: Option<BallotNumber>,
    pub accepted_ballot: Option<BallotNumber>,
    pub accepted_value: Option<Seq<u8>>,
}

/// Answer to a Prepare.
#[derive(Debug)]
pub enum PrepareResult {
    /// The promise, carrying the previously accepted ballot and value, if any.
    Promised(Option<BallotNumber>, Option<Value>),
    /// Refused; carries the ballot already promised.
    Rejected(BallotNumber),
}

/// Mathematical content of [`PrepareResult`].
pub enum PrepareResultView {
    Promised(Option<BallotNumber>, Option<Seq<u8>>),
    Rejected(BallotNumber),
}

/// Answer to an Accept.
#[derive(Clone, Copy, Debug, PartialEq, Eq, Structural)]
pub enum AcceptResult {
    /// Accepted under the given ballot.
    Acked(BallotNumber),
    /// Refused; carries the ballot already promised.
    Rejected(BallotNumber),
}

impl View for AcceptorState {
    type V = AcceptorView;

    open spec fn view(&self) -> AcceptorView {
        AcceptorView {
            promised: self.highest_promised_ballot,
            accepted_ballot: self.accepted_ballot,
            accepted_value: opt_value_view(self.accepted_value),
        }
    }
}

impl View for PrepareResult {
    type V = PrepareResultView;

    open spec fn view(&self) -> PrepareResultView {
        match *self {
            PrepareResult::Promised(b, v) => PrepareResultView::Promised(b, opt_value_view(v)),
            PrepareResult::Rejected(b) => PrepareResultView::Rejected(b),
        }
    }
}

impl AcceptorView {
    /// The state of an acceptor that has seen nothing.
    pub open spec fn initial() -> AcceptorView {
        AcceptorView { promised: None, accepted_ballot: None, accepted_value: None }
    }

    /// The persisted invariant: a value is held exactly when an accepted
    /// ballot is, and the accepted ballot never exceeds the promised one.
    pub open spec fn consistent(self) -> bool {
        &&& self.accepted_ballot is Some <==> self.accepted_value is Some
        &&& opt_le(self.accepted_ballot, self.promised)
    }

    /// A Prepare is refused when its ballot is at or below the promised one.
    pub open spec fn refuses_prepare(self, ballot: BallotNumber) -> bool {
        self.promised matches Some(p) && ballot.le(p)
    }

    /// State after handling `Prepare(ballot)`.
    pub open spec fn after_prepare(self, ballot: BallotNumber) -> AcceptorView {
        if self.refuses_prepare(ballot) {
            self
        } else {
            AcceptorView { promised: Some(ballot), ..self }
        }
    }

    /// Reply to `Prepare(ballot)`.
    pub open spec fn prepare_reply(self, ballot: BallotNumber) -> PrepareResultView {
        if self.refuses_prepare(ballot) {
            PrepareResultView::Rejected(self.promised->0)
        } else {
            PrepareResultView::Promised(self.accepted_ballot, self.accepted_value)
        }
    }

    /// An Accept is refused when its ballot is strictly below the promised one.
    pub open spec fn refuses_accept(self, ballot: BallotNumber) -> bool {
        self.promised matches Some(p) && ballot.lt(p)
    }

    /// State after handling `Accept(ballot, value)`.
    pub open spec fn after_accept(self, ballot: BallotNumber, value: Seq<u8>) -> AcceptorView {
        if self.refuses_accept(ballot) {
            self
        } else {
            AcceptorView {
                promised: Some(ballot),
                accepted_ballot: Some(ballot),
                accepted_value: Some(value),
            }
        }
    }

    /// Reply to `Accept(ballot, _)`.
    pub open spec fn accept_reply(self, ballot: BallotNumber) -> AcceptResult {
        if self.refuses_accept(ballot) {
            AcceptResult::Rejected(self.promised->0)
        } else {
            AcceptResult::Acked(ballot)
        }
    }
}

impl AcceptorState {
    /// Whether the state satisfies the persisted invariant.
    pub fn is_consistent(&self) -> (ok: bool)
        ensures
            ok == self@.consistent(),
    {
        match (&self.accepted_ballot, &self.accepted_value) {
            (None, None) => true,
            (Some(a), Some(_)) => match &self.highest_promised_ballot {
                Some(p) => a.at_most(p),
                None => false,
            },
            _ => false,
        }
    }
}

/// The voting role. It only answers; it never retries and never initiates.
pub struct Acceptor {
    state: AcceptorState,
}

impl View for Acceptor {
    type V = AcceptorView;

    closed spec fn view(&self) -> AcceptorView {
        self.state@
    }
}

impl Acceptor {
    /// The invariant every acceptor keeps.
    pub open spec fn wf(&self) -> bool {
        self@.consistent()
    }

    /// An acceptor at bootstrap.
    pub fn new() -> (a: Acceptor)
        ensures
            a.wf(),
            a@ == AcceptorView::initial(),
    {
        Acceptor {
            state: AcceptorState {
                highest_promised_ballot: None,
                accepted_ballot: None,
                accepted_value: None,
            },
        }
    }

    /// An acceptor resuming from persisted state. State that violates the
    /// persisted invariant is refused.
    pub fn restore(state: AcceptorState) -> (r: Result<Acceptor, ConsistencyError>)
        ensures
            state@.consistent() ==> r is Ok && r->Ok_0@ == state@ && r->Ok_0.wf(),
            !state@.consistent() ==> r == Err::<Acceptor, ConsistencyError>(
                ConsistencyError::CorruptAcceptorState,
            ),
    {
        if state.is_consistent() {
            Ok(Acceptor { state })
        } else {
            Err(ConsistencyError::CorruptAcceptorState)
        }
    }

    /// A copy of the state, to be written durably before a reply is released.
    pub fn state(&self) -> (s: AcceptorState)
        ensures
            s@ == self@,
    {
        AcceptorState {
            highest_promised_ballot: self.state.highest_promised_ballot,
            accepted_ballot: self.state.accepted_ballot,
            accepted_value: copy_opt_value(&self.state.accepted_value),
        }
    }

    pub fn highest_promised_ballot(&self) -> (b: Option<BallotNumber>)
        ensures
            b == self@.promised,
    {
        self.state.highest_promised_ballot
    }

    pub fn accepted_ballot(&self) -> (b: Option<BallotNumber>)
        ensures
            b == self@.accepted_ballot,
    {
        self.state.accepted_ballot
    }

    pub fn accepted_value(&self) -> (v: Option<Value>)
        ensures
            opt_value_view(v) == self@.accepted_value,
    {
        copy_opt_value(&self.state.accepted_value)
    }

    /// Phase 1: refuse a ballot at or below the promised one; otherwise
    /// promise it and report what was accepted before.
    pub fn handle_prepare(&mut self, ballot: BallotNumber) -> (r: PrepareResult)
        requires
            old(self).wf(),
        ensures
            final(self).wf(),
            final(self)@ == old(self)@.after_prepare(ballot),
            r@ == old(self)@.prepare_reply(ballot),
    {
        match self.state.highest_promised_ballot {
            Some(p) => {
                if ballot.at_most(&p) {
                    return PrepareResult::Rejected(p);
                }
            },
            None => {},
        }
        self.state.highest_promised_ballot = Some(ballot);
        PrepareResult::Promised(
            self.state.accepted_ballot,
            copy_opt_value(&self.state.accepted_value),
        )
    }

    /// Phase 2: refuse a ballot strictly below the promised one; otherwise
    /// accept the value under that ballot.
    pub fn handle_accept(&mut self, ballot: BallotNumber, value: Value) -> (r: AcceptResult)
        requires
            old(self).wf(),
        ensures
            final(self).wf(),
            final(self)@ == old(self)@.after_accept(ballot, value@),
            r == old(self)@.accept_reply(ballot),
    {
        match self.state.highest_promised_ballot {
            Some(p) => {
                if ballot.precedes(&p) {
                    return AcceptResult::Rejected(p);
                }
            },
            None => {},
        }
        self.state = AcceptorState {
            highest_promised_ballot: Some(ballot),
            accepted_ballot: Some(ballot),
            accepted_value: Some(value),
        };
        AcceptResult::Acked(ballot)
    }
}

} // verus!
