use paxos_core::acceptor::AcceptorState;
use paxos_core::ballot::BallotNumber;
use paxos_core::membership::Membership;
use paxos_core::message::PaxosMessage;
use paxos_core::node::{Outbound, PaxosNode, Step};
use paxos_core::outcome::{ConsistencyError, ProposalOutcome};
use std::collections::VecDeque;

const IDS: [u64; 3] = [1, 2, 3];

fn cluster() -> Vec<PaxosNode> {
    IDS.iter().map(|id| PaxosNode::new(*id, Membership::from_ids(&IDS.to_vec()))).collect()
}

fn index_of(id: u64) -> usize {
    IDS.iter().position(|x| *x == id).unwrap()
}

/// Queues what a step asks to send: a reply goes back to `from`, a broadcast to every member.
fn enqueue(queue: &mut VecDeque<(u64, u64, PaxosMessage)>, at: u64, from: u64, step: Step) {
    match step.send {
        Some(Outbound::Reply(m)) => queue.push_back((at, from, m)),
        Some(Outbound::Broadcast(m)) => {
            for id in IDS {
                queue.push_back((at, id, m.clone()));
            }
        },
        None => {},
    }
}

/// Delivers every queued message, in order, until none is left. Returns the
/// Accept and Learn messages that were broadcast, in order.
fn deliver_all(
    nodes: &mut Vec<PaxosNode>,
    queue: &mut VecDeque<(u64, u64, PaxosMessage)>,
) -> Vec<PaxosMessage> {
    let mut seen = Vec::new();
    while let Some((from, to, message)) = queue.pop_front() {
        match &message {
            PaxosMessage::Accept(_, _) | PaxosMessage::Learn(_) => seen.push(message.clone()),
            _ => {},
        }
        let step = nodes[index_of(to)].handle_message(from, message).unwrap();
        enqueue(queue, to, from, step);
    }
    seen
}

fn propose(nodes: &mut Vec<PaxosNode>, proposer: u64, value: &[u8]) -> Vec<PaxosMessage> {
    let mut queue = VecDeque::new();
    let step = nodes[index_of(proposer)].propose(value.to_vec()).unwrap();
    assert!(step.persist.is_none());
    enqueue(&mut queue, proposer, proposer, step);
    deliver_all(nodes, &mut queue)
}

#[test]
fn three_acceptors_decide_the_proposed_value() {
    let mut nodes = cluster();
    let sent = propose(&mut nodes, 1, b"x");
    for n in &nodes {
        assert_eq!(n.decided_value(), Some(b"x".to_vec()));
        let s = n.acceptor_state();
        assert_eq!(s.highest_promised_ballot, Some(BallotNumber { round: 1, proposer: 1 }));
        assert_eq!(s.accepted_ballot, Some(BallotNumber { round: 1, proposer: 1 }));
        assert_eq!(s.accepted_value, Some(b"x".to_vec()));
    }
    assert_eq!(nodes[0].outcome(), Some(Ok(())));
    assert_eq!(nodes[1].outcome(), None);
    // One Accept and one Learn, each broadcast to the three members.
    let accepts = sent.iter().filter(|m| matches!(m, PaxosMessage::Accept(_, _))).count();
    let learns = sent.iter().filter(|m| matches!(m, PaxosMessage::Learn(_))).count();
    assert_eq!((accepts, learns), (3, 3));
}

#[test]
fn accept_goes_out_with_the_second_promise_of_three() {
    let mut nodes = cluster();
    let b = BallotNumber { round: 1, proposer: 1 };
    let step = nodes[0].propose(b"x".to_vec()).unwrap();
    match step.send {
        Some(Outbound::Broadcast(PaxosMessage::Prepare(p))) => assert_eq!(p, b),
        other => panic!("unexpected: {:?}", other),
    }
    let first = nodes[0].handle_message(2, PaxosMessage::Promise(b, None, None)).unwrap();
    assert!(first.send.is_none());
    // The same acceptor again: nothing changes.
    let again = nodes[0].handle_message(2, PaxosMessage::Promise(b, None, None)).unwrap();
    assert!(again.send.is_none());
    // A stranger: nothing changes.
    let stranger = nodes[0].handle_message(9, PaxosMessage::Promise(b, None, None)).unwrap();
    assert!(stranger.send.is_none());
    let second = nodes[0].handle_message(3, PaxosMessage::Promise(b, None, None)).unwrap();
    match second.send {
        Some(Outbound::Broadcast(PaxosMessage::Accept(p, v))) => {
            assert_eq!(p, b);
            assert_eq!(v, b"x".to_vec());
        },
        other => panic!("unexpected: {:?}", other),
    }
    // Chosen needs two distinct acknowledgements as well.
    assert!(nodes[0].handle_message(2, PaxosMessage::Ack(b)).unwrap().send.is_none());
    assert!(nodes[0].handle_message(2, PaxosMessage::Ack(b)).unwrap().send.is_none());
    assert_eq!(nodes[0].outcome(), None);
    let done = nodes[0].handle_message(1, PaxosMessage::Ack(b)).unwrap();
    match done.send {
        Some(Outbound::Broadcast(PaxosMessage::Learn(v))) => assert_eq!(v, b"x".to_vec()),
        other => panic!("unexpected: {:?}", other),
    }
    assert_eq!(nodes[0].outcome(), Some(Ok(())));
}

#[test]
fn lower_ballot_is_rejected_with_the_promised_one() {
    let mut nodes = cluster();
    // Proposer 1 is in flight with ballot (2, 1) at acceptor 3.
    let high = BallotNumber { round: 2, proposer: 1 };
    let step = nodes[2].handle_message(1, PaxosMessage::Prepare(high)).unwrap();
    assert!(matches!(step.send, Some(Outbound::Reply(PaxosMessage::Promise(_, None, None)))));
    assert_eq!(step.persist.unwrap().highest_promised_ballot, Some(high));
    // Proposer 2 now starts with ballot (1, 2).
    let first = nodes[1].propose(b"z".to_vec()).unwrap();
    let low = BallotNumber { round: 1, proposer: 2 };
    match first.send {
        Some(Outbound::Broadcast(PaxosMessage::Prepare(p))) => assert_eq!(p, low),
        other => panic!("unexpected: {:?}", other),
    }
    let step = nodes[2].handle_message(2, PaxosMessage::Prepare(low)).unwrap();
    assert!(step.persist.is_none());
    match step.send {
        Some(Outbound::Reply(PaxosMessage::Reject(seen))) => {
            assert_eq!(seen, high);
            nodes[1].handle_message(3, PaxosMessage::Reject(seen)).unwrap();
        },
        other => panic!("unexpected: {:?}", other),
    }
    assert_eq!(nodes[1].outcome(), Some(Err(ProposalOutcome::Preempted(high))));
    // The retry is above the ballot that preempted the round.
    let retry = nodes[1].propose(b"z".to_vec()).unwrap();
    match retry.send {
        Some(Outbound::Broadcast(PaxosMessage::Prepare(p))) => {
            assert_eq!(p, BallotNumber { round: 3, proposer: 2 })
        },
        other => panic!("unexpected: {:?}", other),
    }
}

#[test]
fn previously_accepted_value_wins_over_the_proposers_own() {
    let old = BallotNumber { round: 1, proposer: 0 };
    let mut nodes = cluster();
    nodes[0] = PaxosNode::restore(
        1,
        Membership::from_ids(&IDS.to_vec()),
        AcceptorState {
            highest_promised_ballot: Some(old),
            accepted_ballot: Some(old),
            accepted_value: Some(b"y".to_vec()),
        },
    )
    .unwrap();
    // The first round is abandoned at once, so that the second runs under (2, 1).
    let _ = nodes[0].propose(b"mine".to_vec()).unwrap();
    let sent = propose(&mut nodes, 1, b"mine");
    let b = BallotNumber { round: 2, proposer: 1 };
    for m in &sent {
        match m {
            PaxosMessage::Accept(p, v) => {
                assert_eq!(*p, b);
                assert_eq!(v, &b"y".to_vec());
            },
            PaxosMessage::Learn(v) => assert_eq!(v, &b"y".to_vec()),
            _ => {},
        }
    }
    assert!(sent.iter().any(|m| matches!(m, PaxosMessage::Accept(_, _))));
    for n in &nodes {
        assert_eq!(n.decided_value(), Some(b"y".to_vec()));
    }
}

#[test]
fn a_later_proposer_decides_the_value_already_chosen() {
    let mut nodes = cluster();
    propose(&mut nodes, 1, b"x");
    let sent = propose(&mut nodes, 3, b"other");
    assert!(sent.iter().any(|m| matches!(m, PaxosMessage::Learn(_))));
    for m in &sent {
        if let PaxosMessage::Learn(v) = m {
            assert_eq!(v, &b"x".to_vec());
        }
    }
    for n in &nodes {
        assert_eq!(n.decided_value(), Some(b"x".to_vec()));
    }
    assert_eq!(nodes[2].outcome(), Some(Ok(())));
}

/// Delivers every message twice; `newest_first` picks the order.
fn deliver_twice(
    nodes: &mut Vec<PaxosNode>,
    queue: &mut VecDeque<(u64, u64, PaxosMessage)>,
    newest_first: bool,
) -> Vec<Vec<u8>> {
    let mut learned = Vec::new();
    loop {
        let next = if newest_first { queue.pop_back() } else { queue.pop_front() };
        let (from, to, message) = match next {
            Some(m) => m,
            None => break,
        };
        for _ in 0..2 {
            if let PaxosMessage::Learn(v) = &message {
                learned.push(v.clone());
            }
            let step = nodes[index_of(to)].handle_message(from, message.clone()).unwrap();
            enqueue(queue, to, from, step);
        }
    }
    learned
}

#[test]
fn duplicated_and_reordered_messages_never_split_the_decision() {
    for newest_first in [false, true] {
        let mut nodes = cluster();
        let mut queue = VecDeque::new();
        let step = nodes[0].propose(b"x".to_vec()).unwrap();
        enqueue(&mut queue, 1, 1, step);
        let mut learned = deliver_twice(&mut nodes, &mut queue, newest_first);
        // A second proposer with another value, over the same unruly network.
        let step = nodes[1].propose(b"other".to_vec()).unwrap();
        enqueue(&mut queue, 2, 2, step);
        learned.extend(deliver_twice(&mut nodes, &mut queue, newest_first));
        // And a third, delivered in order and once, so that a decision is reached.
        learned.extend(propose(&mut nodes, 3, b"third").into_iter().filter_map(|m| match m {
            PaxosMessage::Learn(v) => Some(v),
            _ => None,
        }));
        assert!(!learned.is_empty());
        assert!(learned.iter().all(|v| v == &learned[0]));
        for n in &nodes {
            assert_eq!(n.decided_value(), Some(learned[0].clone()));
        }
    }
}

#[test]
fn learner_signals_a_conflicting_decision() {
    let mut nodes = cluster();
    assert_eq!(nodes[0].decided_value(), None);
    nodes[0].handle_message(2, PaxosMessage::Learn(b"x".to_vec())).unwrap();
    nodes[0].handle_message(3, PaxosMessage::Learn(b"x".to_vec())).unwrap();
    assert_eq!(
        nodes[0].handle_message(3, PaxosMessage::Learn(b"y".to_vec())).unwrap_err(),
        ConsistencyError::ConflictingDecision
    );
    assert_eq!(nodes[0].decided_value(), Some(b"x".to_vec()));
}

#[test]
fn corrupt_persisted_state_is_refused() {
    let m = || Membership::from_ids(&IDS.to_vec());
    let b1 = BallotNumber { round: 1, proposer: 1 };
    let b2 = BallotNumber { round: 2, proposer: 1 };
    let bad = vec![
        AcceptorState {
            highest_promised_ballot: Some(b1),
            accepted_ballot: Some(b2),
            accepted_value: Some(vec![1]),
        },
        AcceptorState {
            highest_promised_ballot: None,
            accepted_ballot: Some(b1),
            accepted_value: Some(vec![1]),
        },
        AcceptorState {
            highest_promised_ballot: Some(b2),
            accepted_ballot: Some(b1),
            accepted_value: None,
        },
        AcceptorState {
            highest_promised_ballot: Some(b2),
            accepted_ballot: None,
            accepted_value: Some(vec![1]),
        },
    ];
    for state in bad {
        assert_eq!(
            PaxosNode::restore(1, m(), state).err(),
            Some(ConsistencyError::CorruptAcceptorState)
        );
    }
    let good = AcceptorState {
        highest_promised_ballot: Some(b2),
        accepted_ballot: Some(b1),
        accepted_value: Some(vec![1]),
    };
    let node = PaxosNode::restore(1, m(), good).unwrap();
    assert_eq!(node.acceptor_state().accepted_value, Some(vec![1]));
    assert_eq!(node.acceptor_state().highest_promised_ballot, Some(b2));
}

#[test]
fn timeout_ends_a_round_in_flight_only() {
    let mut nodes = cluster();
    nodes[0].handle_timeout();
    assert_eq!(nodes[0].outcome(), None);
    nodes[0].propose(b"x".to_vec()).unwrap();
    nodes[0].handle_timeout();
    assert_eq!(nodes[0].outcome(), Some(Err(ProposalOutcome::TimedOut)));
    // Promises that arrive late are not counted.
    let b = BallotNumber { round: 1, proposer: 1 };
    assert!(nodes[0].handle_message(2, PaxosMessage::Promise(b, None, None)).unwrap().send.is_none());
    assert!(nodes[0].handle_message(3, PaxosMessage::Promise(b, None, None)).unwrap().send.is_none());
    assert_eq!(nodes[0].outcome(), Some(Err(ProposalOutcome::TimedOut)));
}

#[test]
fn a_restarted_node_resumes_above_its_old_rounds() {
    let mut nodes = cluster();
    propose(&mut nodes, 1, b"x");
    let kept_state = nodes[0].acceptor_state();
    let kept_round = nodes[0].highest_round();
    assert_eq!(kept_round, 1);
    let mut back = PaxosNode::restore(1, Membership::from_ids(&IDS.to_vec()), kept_state).unwrap();
    back.raise_round_floor(kept_round);
    assert_eq!(back.decided_value(), None);
    assert_eq!(back.outcome(), None);
    nodes[0] = back;
    let sent = propose(&mut nodes, 1, b"other");
    for m in &sent {
        match m {
            PaxosMessage::Accept(p, v) => {
                assert_eq!(*p, BallotNumber { round: 2, proposer: 1 });
                assert_eq!(v, &b"x".to_vec());
            },
            _ => {},
        }
    }
    for n in &nodes {
        assert_eq!(n.decided_value(), Some(b"x".to_vec()));
    }
}
