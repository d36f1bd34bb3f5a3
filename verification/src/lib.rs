//! Single-decree Paxos: ballots, acceptors, proposers, learners and the node
//! that composes them, with the safety argument checked alongside the code.

pub mod acceptor;
pub mod ballot;
pub mod block;
pub mod digest;
pub mod errors;
pub mod hex;
pub mod laws;
pub mod learner;
pub mod membership;
pub mod merkle;
pub mod message;
pub mod node;
pub mod outcome;
pub mod proposer;
pub mod protocol;
pub mod quorum;
pub mod safety;
