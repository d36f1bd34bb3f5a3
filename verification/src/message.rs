//! Decree values and the closed set of protocol messages.

use crate::ballot::BallotNumber;
use vstd::prelude::*;

verus! {

/// The decree: an opaque byte payload.
pub type Value = Vec<u8>;

/// The bytes of an optional value.
pub open spec fn opt_value_view(v: Option<Value>) -> Option<Seq<u8>> {
    match v {
        Some(x) => Some(x@),
        None => None,
    }
}

/// Byte-wise equality of two values.
pub fn value_eq(a: &Value, b: &Value) -> (r: bool)
    ensures
        r == (a@ == b@),
{
    if a.len() != b.len() {
        return false;
    }
    let mut i: usize = 0;
    while i < a.len()
        invariant
            a.len() == b.len(),
            i <= a.len(),
            forall|j: int| 0 <= j < i ==> a@[j] == b@[j],
        decreases a.len() - i,
    {
        if a[i] != b[i] {
            return false;
        }
        i += 1;
    }
    assert(a@ =~= b@);
    true
}

/// A fresh copy of a value.
pub fn copy_value(v: &Value) -> (r: Value)
    ensures
        r@ == v@,
{
    let mut out: Vec<u8> = Vec::with_capacity(v.len());
    let mut i: usize = 0;
    while i < v.len()
        invariant
            i <= v.len(),
            out@ == v@.subrange(0, i as int),
        decreases v.len() - i,
    {
        out.push(v[i]);
        assert(v@.subrange(0, i as int).push(v@[i as int]) =~= v@.subrange(0, i + 1));
        i += 1;
    }
    assert(v@.subrange(0, v.len() as int) =~= v@);
    out
}

/// A fresh copy of an optional value.
pub fn copy_opt_value(v: &Option<Value>) -> (r: Option<Value>)
    ensures
        opt_value_view(r) == opt_value_view(*v),
{
    match v {
        Some(x) => Some(copy_value(x)),
        None => None,
    }
}

/// Everything that travels between nodes.
#[derive(Debug)]
pub enum PaxosMessage {
    /// Phase 1a: a proposer asks for a promise under `ballot`.
    Prepare(BallotNumber),
    /// Phase 1b: the promise, with the pair the acceptor had accepted before.
    Promise(BallotNumber, Option<BallotNumber>, Option<Value>),
    /// Phase 2a: a proposer asks to accept `value` under `ballot`.
    Accept(BallotNumber, Value),
    /// Phase 2b: the acceptor accepted under `ballot`.
    Ack(BallotNumber),
    /// A refusal; carries the ballot the acceptor is bound to.
    Reject(BallotNumber),
    /// The decree was chosen.
    Learn(Value),
}

/// Mathematical content of a message.
pub enum MessageView {
    Prepare(BallotNumber),
    Promise(BallotNumber, Option<BallotNumber>, Option<Seq<u8>>),
    Accept(BallotNumber, Seq<u8>),
    Ack(BallotNumber),
    Reject(BallotNumber),
    Learn(Seq<u8>),
}

impl View for PaxosMessage {
    type V = MessageView;

    open spec fn view(&self) -> MessageView {
        match *self {
            PaxosMessage::Prepare(b) => MessageView::Prepare(b),
            PaxosMessage::Promise(b, ab, av) => MessageView::Promise(b, ab, opt_value_view(av)),
            PaxosMessage::Accept(b, v) => MessageView::Accept(b, v@),
            PaxosMessage::Ack(b) => MessageView::Ack(b),
            PaxosMessage::Reject(b) => MessageView::Reject(b),
            PaxosMessage::Learn(v) => MessageView::Learn(v@),
        }
    }
}

impl Clone for PaxosMessage {
    fn clone(&self) -> (r: PaxosMessage)
        ensures
            r@ == self@,
    {
        match self {
            PaxosMessage::Prepare(b) => PaxosMessage::Prepare(*b),
            PaxosMessage::Promise(b, ab, av) => PaxosMessage::Promise(*b, *ab, copy_opt_value(av)),
            PaxosMessage::Accept(b, v) => PaxosMessage::Accept(*b, copy_value(v)),
            PaxosMessage::Ack(b) => PaxosMessage::Ack(*b),
            PaxosMessage::Reject(b) => PaxosMessage::Reject(*b),
            PaxosMessage::Learn(v) => PaxosMessage::Learn(copy_value(v)),
        }
    }
}

} // verus!
