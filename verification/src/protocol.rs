//! The cluster as a whole: nodes, the messages ever sent, and the steps an
//! execution is made of.
//!
//! A message, once sent, stays deliverable for ever: it may be delivered late,
//! out of order, many times, or never. A node that takes no further step has
//! failed. Every step is one call of a node's own transition, so what is
//! proved of this model is proved of the transitions the nodes execute.

use crate::acceptor::AcceptorView;
use crate::ballot::NodeId;
use crate::membership::distinct;
use crate::message::MessageView;
use crate::node::{NodeView, OutboundView, StepView};
use crate::outcome::ConsistencyError;
use crate::proposer::ProposerView;
use vstd::prelude::*;

verus! {

/// A message on the wire.
pub struct Envelope {
    pub from: NodeId,
    pub to: NodeId,
    pub message: MessageView,
}

/// The state of the whole cluster.
pub struct Cluster {
    /// The acceptor set, the same at every node.
    pub members: Seq<NodeId>,
    pub nodes: Map<NodeId, NodeView>,
    /// Every message sent so far.
    pub network: Set<Envelope>,
}

/// The envelopes a node at `at` sends when it answers a message from `from`
/// with `send`: a reply goes back to `from`, a broadcast to every member.
pub open spec fn outgoing(
    at: NodeId,
    from: NodeId,
    members: Seq<NodeId>,
    send: Option<OutboundView>,
) -> Set<Envelope> {
    match send {
        Some(OutboundView::Reply(m)) => set![Envelope { from: at, to: from, message: m }],
        Some(OutboundView::Broadcast(m)) => Set::new(
            |e: Envelope| e.from == at && members.contains(e.to) && e.message == m,
        ),
        None => Set::empty(),
    }
}

/// What a fallible step sends: nothing when it failed.
pub open spec fn sent_by(r: Result<StepView, ConsistencyError>) -> Option<OutboundView> {
    match r {
        Ok(step) => step.send,
        Err(_) => None,
    }
}

/// A node at bootstrap.
pub open spec fn fresh_node(id: NodeId, members: Seq<NodeId>) -> NodeView {
    NodeView {
        node_id: id,
        acceptor: AcceptorView::initial(),
        proposer: ProposerView::initial(id, members),
        learner: None,
    }
}

impl Cluster {
    /// The cluster at bootstrap: every member fresh, nothing sent.
    pub open spec fn init(self) -> bool {
        &&& distinct(self.members)
        &&& self.nodes.dom() == self.members.to_set()
        &&& forall|id: NodeId| #[trigger]
            self.members.contains(id) ==> self.nodes[id] == fresh_node(id, self.members)
        &&& self.network == Set::<Envelope>::empty()
    }

    /// Member `id` starts a round for `value`.
    pub open spec fn propose(self, next: Cluster, id: NodeId, value: Seq<u8>) -> bool {
        &&& self.members.contains(id)
        &&& self.nodes[id].proposer.highest_round < u64::MAX
        &&& next.members == self.members
        &&& next.nodes == self.nodes.insert(
            id,
            NodeView { proposer: self.nodes[id].proposer.after_propose(value), ..self.nodes[id] },
        )
        &&& next.network == self.network.union(
            outgoing(
                id,
                id,
                self.members,
                Some(
                    OutboundView::Broadcast(
                        MessageView::Prepare(self.nodes[id].proposer.next_ballot()),
                    ),
                ),
            ),
        )
    }

    /// A message sent earlier reaches the member it addresses.
    pub open spec fn deliver(self, next: Cluster, e: Envelope) -> bool {
        &&& self.network.contains(e)
        &&& self.members.contains(e.to)
        &&& next.members == self.members
        &&& next.nodes == self.nodes.insert(e.to, self.nodes[e.to].after_message(e.from, e.message))
        &&& next.network == self.network.union(
            outgoing(
                e.to,
                e.from,
                self.members,
                sent_by(self.nodes[e.to].response_to(e.from, e.message)),
            ),
        )
    }

    /// The bound of a phase passes at member `id`.
    pub open spec fn timeout(self, next: Cluster, id: NodeId) -> bool {
        &&& self.members.contains(id)
        &&& next.members == self.members
        &&& next.nodes == self.nodes.insert(
            id,
            NodeView { proposer: self.nodes[id].proposer.after_timeout(), ..self.nodes[id] },
        )
        &&& next.network == self.network
    }

    /// Member `id` crashes and restarts: its acceptor state is what it had
    /// persisted, its learner and its round are gone, and its round counter
    /// resumes at `floor`, no lower than where it stood.
    pub open spec fn restart(self, next: Cluster, id: NodeId, floor: u64) -> bool {
        &&& self.members.contains(id)
        &&& self.nodes[id].proposer.highest_round <= floor
        &&& next.members == self.members
        &&& next.nodes == self.nodes.insert(
            id,
            NodeView {
                proposer: ProposerView::initial(id, self.members).with_round_floor(floor),
                learner: None,
                ..self.nodes[id]
            },
        )
        &&& next.network == self.network
    }

    /// One step of the cluster.
    pub open spec fn step(self, next: Cluster) -> bool {
        ||| exists|id: NodeId, value: Seq<u8>| self.propose(next, id, value)
        ||| exists|e: Envelope| self.deliver(next, e)
        ||| exists|id: NodeId| self.timeout(next, id)
        ||| exists|id: NodeId, floor: u64| self.restart(next, id, floor)
    }
}

/// An execution: it starts at bootstrap and moves by steps.
pub open spec fn execution(trace: Seq<Cluster>) -> bool {
    &&& trace.len() > 0
    &&& trace[0].init()
    &&& forall|i: int| 0 <= i < trace.len() - 1 ==> (#[trigger] trace[i]).step(trace[i + 1])
}

} // verus!
