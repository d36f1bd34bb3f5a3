//! Ballot numbers: totally ordered, proposer-unique identifiers of rounds.

use vstd::prelude::*;

verus! {

/// Identity of a participant.
pub type NodeId = u64;

/// A ballot is a pair of a round counter and the identity of the proposer that
/// issued it. Ballots are ordered by round first; the proposer identity breaks
/// ties, so two proposers never share a ballot.
#[derive(Clone, Copy, Debug, PartialEq, Eq, Structural, Hash)]
pub struct BallotNumber {
    pub round: u64,
    pub proposer: NodeId,
}

impl BallotNumber {
    /// Strict order: lexicographic on (round, proposer).
    pub open spec fn lt(self, other: BallotNumber) -> bool {
        self.round < other.round || (self.round == other.round && self.proposer
            < other.proposer)
    }

    /// Non-strict order.
    pub open spec fn le(self, other: BallotNumber) -> bool {
        self == other || self.lt(other)
    }

    pub fn new(round: u64, proposer: NodeId) -> (b: BallotNumber)
        ensures
            b.round == round,
            b.proposer == proposer,
    {
        BallotNumber { round, proposer }
    }

    /// `self < other` in the ballot order.
    pub fn precedes(&self, other: &BallotNumber) -> (r: bool)
        ensures
            r == self.lt(*other),
    {
        self.round < other.round || (self.round == other.round && self.proposer
            < other.proposer)
    }

    /// `self <= other` in the ballot order.
    pub fn at_most(&self, other: &BallotNumber) -> (r: bool)
        ensures
            r == self.le(*other),
    {
        self.round < other.round || (self.round == other.round && self.proposer
            <= other.proposer)
    }

    /// The larger of two ballots.
    pub fn max(self, other: BallotNumber) -> (m: BallotNumber)
        ensures
            m == if self.lt(other) { other } else { self },
    {
        if self.precedes(&other) {
            other
        } else {
            self
        }
    }
}

/// `lt` on optional ballots, with "no ballot" below every ballot.
pub open spec fn opt_lt(a: Option<BallotNumber>, b: Option<BallotNumber>) -> bool {
    match (a, b) {
        (None, None) => false,
        (None, Some(_)) => true,
        (Some(_), None) => false,
        (Some(x), Some(y)) => x.lt(y),
    }
}

/// `le` on optional ballots, with "no ballot" below every ballot.
pub open spec fn opt_le(a: Option<BallotNumber>, b: Option<BallotNumber>) -> bool {
    a == b || opt_lt(a, b)
}

/// The ballot order is a strict total order.
pub proof fn lemma_ballot_order_total(a: BallotNumber, b: BallotNumber, c: BallotNumber)
    ensures
        !a.lt(a),
        a.lt(b) && b.lt(c) ==> a.lt(c),
        a.lt(b) || a == b || b.lt(a),
        a.lt(b) ==> !b.lt(a),
        a.le(b) <==> !b.lt(a),
{
}

} // verus!
