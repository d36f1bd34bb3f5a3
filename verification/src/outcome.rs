//! Negative outcomes: recoverable round failures and fatal inconsistencies.

use crate::ballot::BallotNumber;
use vstd::prelude::*;

verus! {

/// Why a round did not choose. Preemption and timeout are recoverable: the
/// caller may retry with a higher ballot.
#[derive(Clone, Copy, Debug, PartialEq, Eq, Structural)]
pub enum ProposalOutcome {
    /// An acceptor is bound to the given ballot, which is at or above ours.
    Preempted(BallotNumber),
    /// No quorum answered within the phase's bound.
    TimedOut,
    /// The proposer's round counter is at its maximum: no higher ballot exists.
    BallotsExhausted,
}

/// A broken collaborator (storage or transport). Fatal for the node.
#[derive(Clone, Copy, Debug, PartialEq, Eq, Structural)]
pub enum ConsistencyError {
    /// A learner that had decided was told a different value.
    ConflictingDecision,
    /// Restored acceptor state violates `accepted_ballot <= highest_promised_ballot`,
    /// or holds an accepted ballot without a value (or the reverse).
    CorruptAcceptorState,
}

} // verus!
