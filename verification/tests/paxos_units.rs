use paxos_core::acceptor::{AcceptResult, Acceptor, AcceptorState, PrepareResult};
use paxos_core::ballot::BallotNumber;
use paxos_core::learner::Learner;
use paxos_core::membership::{contains_id, Membership};
use paxos_core::message::{copy_opt_value, copy_value, value_eq, PaxosMessage};
use paxos_core::outcome::{ConsistencyError, ProposalOutcome};
use paxos_core::proposer::{Phase, Proposer};
use paxos_core::quorum::{quorum_size, Outcome, QuorumTracker};

fn b(round: u64, proposer: u64) -> BallotNumber {
    BallotNumber::new(round, proposer)
}

fn snapshot(a: &Acceptor) -> (Option<BallotNumber>, Option<BallotNumber>, Option<Vec<u8>>) {
    let s: AcceptorState = a.state();
    (s.highest_promised_ballot, s.accepted_ballot, s.accepted_value)
}

#[test]
fn ballots_order_by_round_then_proposer() {
    assert!(b(1, 9).precedes(&b(2, 0)));
    assert!(b(1, 1).precedes(&b(1, 2)));
    assert!(!b(1, 2).precedes(&b(1, 2)));
    assert!(!b(2, 0).precedes(&b(1, 9)));
    assert!(b(1, 2).at_most(&b(1, 2)));
    assert!(b(1, 1).at_most(&b(1, 2)));
    assert!(!b(1, 3).at_most(&b(1, 2)));
    assert_eq!(b(1, 2).max(b(1, 3)), b(1, 3));
    assert_eq!(b(2, 2).max(b(1, 3)), b(2, 2));
    assert_eq!(b(3, 4), BallotNumber { round: 3, proposer: 4 });
}

#[test]
fn quorum_size_is_a_majority() {
    assert_eq!(quorum_size(0), 1);
    assert_eq!(quorum_size(1), 1);
    assert_eq!(quorum_size(2), 2);
    assert_eq!(quorum_size(3), 2);
    assert_eq!(quorum_size(4), 3);
    assert_eq!(quorum_size(5), 3);
    assert_eq!(quorum_size(usize::MAX), usize::MAX / 2 + 1);
}

#[test]
fn tracker_counts_each_sender_once() {
    let mut t = QuorumTracker::new(2);
    assert_eq!(t.quorum_size(), 2);
    assert!(!t.has_quorum());
    t.record(7, Outcome::Granted);
    t.record(7, Outcome::Granted);
    assert_eq!(t.granted(), 1);
    assert!(!t.has_quorum());
    // The first response wins: a later refusal of the same sender is ignored.
    t.record(7, Outcome::Rejected(b(9, 9)));
    assert!(!t.any_rejection_at_or_above(b(1, 1)));
    t.record(8, Outcome::Rejected(b(3, 1)));
    assert!(t.has_response_from(8));
    assert!(!t.has_response_from(9));
    assert!(!t.has_quorum());
    assert!(t.any_rejection_at_or_above(b(3, 1)));
    assert!(t.any_rejection_at_or_above(b(2, 5)));
    assert!(!t.any_rejection_at_or_above(b(3, 2)));
    // A grant after the refusal of the same sender is ignored as well.
    t.record(8, Outcome::Granted);
    assert!(!t.has_quorum());
    t.record(9, Outcome::Granted);
    assert!(t.has_quorum());
    assert_eq!(t.granted(), 2);
}

#[test]
fn tracker_with_quorum_zero_is_quorate_at_once() {
    let t = QuorumTracker::new(0);
    assert!(t.has_quorum());
}

#[test]
fn membership_drops_repetitions() {
    let m = Membership::from_ids(&vec![3, 1, 3, 2, 1]);
    assert_eq!(m.ids(), vec![3, 1, 2]);
    assert_eq!(m.size(), 3);
    assert_eq!(m.quorum_size(), 2);
    assert!(m.contains(2));
    assert!(!m.contains(4));
    let empty = Membership::from_ids(&vec![]);
    assert_eq!(empty.size(), 0);
    assert_eq!(empty.quorum_size(), 1);
    assert!(contains_id(&vec![5, 6], 6));
    assert!(!contains_id(&vec![5, 6], 7));
}

#[test]
fn values_compare_and_copy_by_bytes() {
    assert!(value_eq(&vec![], &vec![]));
    assert!(value_eq(&vec![1, 2], &vec![1, 2]));
    assert!(!value_eq(&vec![1, 2], &vec![1, 3]));
    assert!(!value_eq(&vec![1, 2], &vec![1]));
    assert_eq!(copy_value(&vec![4, 5, 6]), vec![4, 5, 6]);
    assert_eq!(copy_opt_value(&Some(vec![4])), Some(vec![4]));
    assert_eq!(copy_opt_value(&None), None);
    let m = PaxosMessage::Promise(b(1, 2), Some(b(1, 1)), Some(vec![7, 8]));
    match m.clone() {
        PaxosMessage::Promise(x, y, z) => {
            assert_eq!((x, y, z), (b(1, 2), Some(b(1, 1)), Some(vec![7, 8])))
        },
        other => panic!("unexpected: {:?}", other),
    }
}

#[test]
fn acceptor_promises_only_higher_ballots() {
    let mut a = Acceptor::new();
    assert_eq!(snapshot(&a), (None, None, None));
    match a.handle_prepare(b(2, 1)) {
        PrepareResult::Promised(None, None) => {},
        other => panic!("unexpected: {:?}", other),
    }
    assert_eq!(a.highest_promised_ballot(), Some(b(2, 1)));
    // Equal and lower ballots are refused with the promised one.
    for low in [b(2, 1), b(2, 0), b(1, 9)] {
        match a.handle_prepare(low) {
            PrepareResult::Rejected(seen) => assert_eq!(seen, b(2, 1)),
            other => panic!("unexpected: {:?}", other),
        }
        assert_eq!(snapshot(&a), (Some(b(2, 1)), None, None));
    }
    match a.handle_prepare(b(2, 2)) {
        PrepareResult::Promised(None, None) => {},
        other => panic!("unexpected: {:?}", other),
    }
    assert_eq!(a.highest_promised_ballot(), Some(b(2, 2)));
}

#[test]
fn acceptor_accepts_at_or_above_its_promise() {
    let mut a = Acceptor::new();
    assert_eq!(a.handle_accept(b(1, 1), b"v".to_vec()), AcceptResult::Acked(b(1, 1)));
    assert_eq!(snapshot(&a), (Some(b(1, 1)), Some(b(1, 1)), Some(b"v".to_vec())));
    assert_eq!(a.accepted_ballot(), Some(b(1, 1)));
    assert_eq!(a.accepted_value(), Some(b"v".to_vec()));
    a.handle_prepare(b(3, 1));
    // Below the promise: refused, nothing changes.
    assert_eq!(a.handle_accept(b(2, 9), b"w".to_vec()), AcceptResult::Rejected(b(3, 1)));
    assert_eq!(snapshot(&a), (Some(b(3, 1)), Some(b(1, 1)), Some(b"v".to_vec())));
    // Equal to the promise: accepted.
    assert_eq!(a.handle_accept(b(3, 1), b"w".to_vec()), AcceptResult::Acked(b(3, 1)));
    assert_eq!(snapshot(&a), (Some(b(3, 1)), Some(b(3, 1)), Some(b"w".to_vec())));
    // Above the promise: accepted, and the promise moves up.
    assert_eq!(a.handle_accept(b(4, 0), b"w".to_vec()), AcceptResult::Acked(b(4, 0)));
    assert_eq!(snapshot(&a), (Some(b(4, 0)), Some(b(4, 0)), Some(b"w".to_vec())));
    // The promise reports what was accepted.
    match a.handle_prepare(b(5, 1)) {
        PrepareResult::Promised(ab, av) => assert_eq!((ab, av), (Some(b(4, 0)), Some(b"w".to_vec()))),
        other => panic!("unexpected: {:?}", other),
    }
}

#[test]
fn replayed_requests_leave_the_acceptor_as_it_was() {
    let mut a = Acceptor::new();
    a.handle_prepare(b(1, 1));
    let after_first = snapshot(&a);
    a.handle_prepare(b(1, 1));
    assert_eq!(snapshot(&a), after_first);
    a.handle_accept(b(1, 1), b"v".to_vec());
    let after_accept = snapshot(&a);
    assert_eq!(a.handle_accept(b(1, 1), b"v".to_vec()), AcceptResult::Acked(b(1, 1)));
    assert_eq!(snapshot(&a), after_accept);
    a.handle_prepare(b(1, 1));
    assert_eq!(snapshot(&a), after_accept);
}

#[test]
fn acceptor_restore_checks_the_invariant() {
    let ok = AcceptorState {
        highest_promised_ballot: Some(b(2, 1)),
        accepted_ballot: Some(b(2, 1)),
        accepted_value: Some(vec![1]),
    };
    assert!(ok.is_consistent());
    assert!(Acceptor::restore(ok).is_ok());
    let bad = AcceptorState {
        highest_promised_ballot: Some(b(2, 1)),
        accepted_ballot: Some(b(2, 2)),
        accepted_value: Some(vec![1]),
    };
    assert!(!bad.is_consistent());
    assert_eq!(Acceptor::restore(bad).err(), Some(ConsistencyError::CorruptAcceptorState));
    let fresh = AcceptorState {
        highest_promised_ballot: None,
        accepted_ballot: None,
        accepted_value: None,
    };
    assert!(fresh.is_consistent());
}

#[test]
fn learner_decides_once() {
    let mut l = Learner::new();
    assert!(!l.is_decided());
    assert_eq!(l.decided_value(), None);
    assert_eq!(l.handle_learn(b"x".to_vec()), Ok(()));
    assert!(l.is_decided());
    assert_eq!(l.handle_learn(b"x".to_vec()), Ok(()));
    assert_eq!(l.handle_learn(b"y".to_vec()), Err(ConsistencyError::ConflictingDecision));
    assert_eq!(l.handle_learn(vec![]), Err(ConsistencyError::ConflictingDecision));
    assert_eq!(l.decided_value(), Some(b"x".to_vec()));
}

fn proposer(id: u64) -> Proposer {
    Proposer::new(id, Membership::from_ids(&vec![1, 2, 3, 4, 5]))
}

fn ballot_of(m: PaxosMessage) -> BallotNumber {
    match m {
        PaxosMessage::Prepare(p) => p,
        other => panic!("unexpected: {:?}", other),
    }
}

#[test]
fn successive_rounds_use_increasing_ballots() {
    let mut p = proposer(4);
    assert_eq!(p.phase(), Phase::Idle);
    assert_eq!(p.outcome(), None);
    let first = ballot_of(p.propose(b"a".to_vec()).unwrap());
    assert_eq!(first, b(1, 4));
    assert_eq!(p.phase(), Phase::Preparing);
    assert_eq!(p.ballot(), first);
    assert_eq!(p.candidate_value(), b"a".to_vec());
    let second = ballot_of(p.propose(b"a".to_vec()).unwrap());
    assert_eq!(second, b(2, 4));
    assert!(first.precedes(&second));
    // A refusal that names a far higher round lifts the next ballot above it.
    p.handle_reject(2, b(40, 5));
    assert_eq!(p.phase(), Phase::Preempted);
    assert_eq!(p.outcome(), Some(Err(ProposalOutcome::Preempted(b(40, 5)))));
    let third = ballot_of(p.propose(b"a".to_vec()).unwrap());
    assert_eq!(third, b(41, 4));
    assert!(b(40, 5).precedes(&third));
}

#[test]
fn exhausted_round_counter_is_reported() {
    let mut p = proposer(1);
    p.propose(b"a".to_vec()).unwrap();
    p.handle_reject(2, b(u64::MAX, 0));
    assert_eq!(p.phase(), Phase::Preempted);
    assert_eq!(p.propose(b"a".to_vec()).err(), Some(ProposalOutcome::BallotsExhausted));
    assert_eq!(p.phase(), Phase::Preempted);
}

#[test]
fn stale_refusals_and_foreign_replies_are_ignored() {
    let mut p = proposer(1);
    let bal = ballot_of(p.propose(b"a".to_vec()).unwrap());
    let bal = {
        assert_eq!(bal, b(1, 1));
        ballot_of(p.propose(b"a".to_vec()).unwrap())
    };
    assert_eq!(bal, b(2, 1));
    // Names a ballot below ours: it answers an earlier round.
    p.handle_reject(2, b(1, 5));
    assert_eq!(p.phase(), Phase::Preparing);
    // Not a member.
    p.handle_reject(9, b(7, 7));
    assert_eq!(p.phase(), Phase::Preparing);
    // A promise for another ballot, and a malformed one.
    assert!(p.handle_promise(2, b(1, 1), None, None).is_none());
    assert!(p.handle_promise(2, bal, Some(b(1, 0)), None).is_none());
    assert!(p.handle_promise(2, bal, None, Some(vec![1])).is_none());
    // Acknowledgements before the Accept went out.
    assert!(p.handle_ack(2, bal).is_none());
    assert!(p.handle_promise(2, bal, None, None).is_none());
    assert!(p.handle_promise(3, bal, None, None).is_none());
    assert_eq!(p.phase(), Phase::Preparing);
    assert!(p.handle_promise(4, bal, None, None).is_some());
    assert_eq!(p.phase(), Phase::Accepting);
    // A refusal at our own ballot preempts the Accept phase too.
    p.handle_reject(5, bal);
    assert_eq!(p.outcome(), Some(Err(ProposalOutcome::Preempted(bal))));
}

#[test]
fn highest_reported_ballot_decides_the_candidate() {
    let mut p = proposer(1);
    let _ = p.propose(b"mine".to_vec()).unwrap();
    let _ = p.propose(b"mine".to_vec()).unwrap();
    let bal = ballot_of(p.propose(b"mine".to_vec()).unwrap());
    assert_eq!(bal, b(3, 1));
    assert!(p.handle_promise(1, bal, Some(b(1, 2)), Some(b"low".to_vec())).is_none());
    assert!(p.handle_promise(2, bal, None, None).is_none());
    let accept = p.handle_promise(3, bal, Some(b(2, 0)), Some(b"high".to_vec())).unwrap();
    match accept {
        PaxosMessage::Accept(x, v) => assert_eq!((x, v), (bal, b"high".to_vec())),
        other => panic!("unexpected: {:?}", other),
    }
    assert_eq!(p.candidate_value(), b"high".to_vec());
    // Promises after the quorum do not change the candidate.
    assert!(p.handle_promise(4, bal, Some(b(2, 5)), Some(b"late".to_vec())).is_none());
    assert_eq!(p.candidate_value(), b"high".to_vec());
    assert!(p.handle_ack(1, bal).is_none());
    assert!(p.handle_ack(2, bal).is_none());
    match p.handle_ack(5, bal) {
        Some(PaxosMessage::Learn(v)) => assert_eq!(v, b"high".to_vec()),
        other => panic!("unexpected: {:?}", other),
    }
    assert_eq!(p.phase(), Phase::Chosen);
    p.handle_timeout();
    assert_eq!(p.phase(), Phase::Chosen);
}

#[test]
fn first_reported_pair_wins_a_tie() {
    let mut p = proposer(1);
    let _ = p.propose(b"mine".to_vec()).unwrap();
    let bal = ballot_of(p.propose(b"mine".to_vec()).unwrap());
    p.handle_promise(1, bal, Some(b(1, 2)), Some(b"first".to_vec()));
    p.handle_promise(2, bal, Some(b(1, 2)), Some(b"second".to_vec()));
    match p.handle_promise(3, bal, None, None) {
        Some(PaxosMessage::Accept(_, v)) => assert_eq!(v, b"first".to_vec()),
        other => panic!("unexpected: {:?}", other),
    }
}

#[test]
fn round_floor_only_rises() {
    let mut p = proposer(2);
    assert_eq!(p.highest_round(), 0);
    p.raise_round_floor(7);
    assert_eq!(p.highest_round(), 7);
    p.raise_round_floor(3);
    assert_eq!(p.highest_round(), 7);
    assert_eq!(ballot_of(p.propose(b"a".to_vec()).unwrap()), b(8, 2));
    assert_eq!(p.highest_round(), 8);
}
