//! Quorum arithmetic and the per-round tally of responses.

use crate::ballot::{BallotNumber, NodeId};
use vstd::prelude::*;

verus! {

/// Size of a majority of `n` acceptors: `floor(n / 2) + 1`.
pub open spec fn spec_quorum_size(n: nat) -> nat {
    n / 2 + 1
}

/// Size of a majority of `n` acceptors.
pub fn quorum_size(n: usize) -> (q: usize)
    ensures
        q == spec_quorum_size(n as nat),
        2 * q > n,
{
    n / 2 + 1
}

/// What one acceptor answered in the current phase.
#[derive(Clone, Copy, Debug, PartialEq, Eq, Structural)]
pub enum Outcome {
    /// A Promise or an Ack.
    Granted,
    /// A refusal, with the ballot the acceptor is bound to.
    Rejected(BallotNumber),
}

/// One recorded response.
#[derive(Clone, Copy, Debug, PartialEq, Eq, Structural)]
pub struct Response {
    pub sender: NodeId,
    pub outcome: Outcome,
}

/// Whether `sender` occurs among the responses.
pub open spec fn has_sender(s: Seq<Response>, sender: NodeId) -> bool {
    exists|i: int| 0 <= i < s.len() && s[i].sender == sender
}

/// No sender occurs twice.
pub open spec fn senders_distinct(s: Seq<Response>) -> bool {
    forall|i: int, j: int| 0 <= i < j < s.len() ==> s[i].sender != s[j].sender
}

/// The senders whose response was a grant.
pub open spec fn granted_senders(s: Seq<Response>) -> Set<NodeId> {
    Set::new(
        |id: NodeId|
            exists|i: int|
                0 <= i < s.len() && s[i] == (Response { sender: id, outcome: Outcome::Granted }),
    )
}

/// Number of grants in the sequence, counted with repetition.
pub open spec fn granted_count(s: Seq<Response>) -> nat
    decreases s.len(),
{
    if s.len() == 0 {
        0
    } else {
        granted_count(s.drop_last()) + if s.last().outcome == Outcome::Granted {
            1nat
        } else {
            0nat
        }
    }
}

/// The responses after one more arrives: a sender already recorded is ignored.
pub open spec fn recorded(s: Seq<Response>, sender: NodeId, outcome: Outcome) -> Seq<Response> {
    if has_sender(s, sender) {
        s
    } else {
        s.push(Response { sender, outcome })
    }
}

/// Some recorded refusal names a ballot at or above `ballot`.
pub open spec fn rejected_at_or_above(s: Seq<Response>, ballot: BallotNumber) -> bool {
    exists|i: int|
        0 <= i < s.len() && (#[trigger] s[i].outcome matches Outcome::Rejected(seen) && ballot.le(
            seen,
        ))
}

/// With distinct senders, counting grants counts granting senders.
pub proof fn lemma_granted_count_is_set_size(s: Seq<Response>)
    requires
        senders_distinct(s),
    ensures
        granted_senders(s).finite(),
        granted_senders(s).len() == granted_count(s),
    decreases s.len(),
{
    if s.len() == 0 {
        assert(granted_senders(s) =~= Set::<NodeId>::empty());
    } else {
        let t = s.drop_last();
        let last = s.last();
        lemma_granted_count_is_set_size(t);
        if last.outcome == Outcome::Granted {
            assert(!granted_senders(t).contains(last.sender)) by {
                if granted_senders(t).contains(last.sender) {
                    let i = choose|i: int|
                        0 <= i < t.len() && t[i] == (Response {
                            sender: last.sender,
                            outcome: Outcome::Granted,
                        });
                    assert(s[i].sender == s[s.len() - 1].sender);
                }
            }
            assert(granted_senders(s) =~= granted_senders(t).insert(last.sender)) by {
                assert forall|id: NodeId| granted_senders(s).contains(id) implies granted_senders(
                    t,
                ).insert(last.sender).contains(id) by {
                    let i = choose|i: int|
                        0 <= i < s.len() && s[i] == (Response {
                            sender: id,
                            outcome: Outcome::Granted,
                        });
                    if i < t.len() {
                        assert(t[i] == s[i]);
                    }
                }
                assert forall|id: NodeId|
                    granted_senders(t).insert(last.sender).contains(id) implies granted_senders(
                    s,
                ).contains(id) by {
                    if id == last.sender {
                        assert(s[s.len() - 1] == (Response {
                            sender: id,
                            outcome: Outcome::Granted,
                        }));
                    } else {
                        let i = choose|i: int|
                            0 <= i < t.len() && t[i] == (Response {
                                sender: id,
                                outcome: Outcome::Granted,
                            });
                        assert(s[i] == t[i]);
                    }
                }
            }
        } else {
            assert(granted_senders(s) =~= granted_senders(t)) by {
                assert forall|id: NodeId| granted_senders(s).contains(id) implies granted_senders(
                    t,
                ).contains(id) by {
                    let i = choose|i: int|
                        0 <= i < s.len() && s[i] == (Response {
                            sender: id,
                            outcome: Outcome::Granted,
                        });
                    assert(i < t.len());
                    assert(t[i] == s[i]);
                }
                assert forall|id: NodeId| granted_senders(t).contains(id) implies granted_senders(
                    s,
                ).contains(id) by {
                    let i = choose|i: int|
                        0 <= i < t.len() && t[i] == (Response {
                            sender: id,
                            outcome: Outcome::Granted,
                        });
                    assert(s[i] == t[i]);
                }
            }
        }
    }
}

/// Tally of the responses of one phase of one round. The first response of
/// each sender counts; later ones from the same sender change nothing.
pub struct QuorumTracker {
    quorum_size: usize,
    responses: Vec<Response>,
    granted: usize,
}

/// Mathematical content of a [`QuorumTracker`].
pub struct TrackerView {
    pub quorum_size: nat,
    pub responses: Seq<Response>,
}

impl TrackerView {
    /// Distinct granting senders have reached the quorum size.
    pub open spec fn has_quorum(self) -> bool {
        granted_senders(self.responses).len() >= self.quorum_size
    }
}

impl View for QuorumTracker {
    type V = TrackerView;

    closed spec fn view(&self) -> TrackerView {
        TrackerView { quorum_size: self.quorum_size as nat, responses: self.responses@ }
    }
}

impl QuorumTracker {
    /// Senders are distinct and the running count agrees with the responses.
    pub closed spec fn wf(&self) -> bool {
        &&& senders_distinct(self.responses@)
        &&& self.granted == granted_count(self.responses@)
    }

    /// What `wf` gives to code outside this module.
    pub proof fn lemma_wf(&self)
        requires
            self.wf(),
        ensures
            senders_distinct(self@.responses),
            granted_senders(self@.responses).finite(),
    {
        lemma_granted_count_is_set_size(self.responses@);
    }

    /// An empty tally for a phase that needs `quorum_size` grants.
    pub fn new(quorum_size: usize) -> (t: QuorumTracker)
        ensures
            t.wf(),
            t@.quorum_size == quorum_size,
            t@.responses == Seq::<Response>::empty(),
    {
        QuorumTracker { quorum_size, responses: Vec::new(), granted: 0 }
    }

    /// Whether `sender` has answered already.
    pub fn has_response_from(&self, sender: NodeId) -> (r: bool)
        ensures
            r == has_sender(self@.responses, sender),
    {
        let mut i: usize = 0;
        while i < self.responses.len()
            invariant
                i <= self.responses.len(),
                forall|j: int| 0 <= j < i ==> self.responses@[j].sender != sender,
            decreases self.responses.len() - i,
        {
            if self.responses[i].sender == sender {
                return true;
            }
            i += 1;
        }
        false
    }

    /// Records the response of `sender`, unless that sender has one already.
    pub fn record(&mut self, sender: NodeId, outcome: Outcome)
        requires
            old(self).wf(),
        ensures
            final(self).wf(),
            final(self)@.quorum_size == old(self)@.quorum_size,
            final(self)@.responses == recorded(old(self)@.responses, sender, outcome),
    {
        if self.has_response_from(sender) {
            return ;
        }
        let ghost before = self.responses@;
        proof {
            lemma_granted_count_is_set_size(before);
        }
        let is_grant = match outcome {
            Outcome::Granted => true,
            Outcome::Rejected(_) => false,
        };
        self.responses.push(Response { sender, outcome });
        proof {
            assert(self.responses@.drop_last() =~= before);
            assert(self.responses@.last() == Response { sender, outcome });
            assert(self.responses@.len() == before.len() + 1);
            assert(self.responses.len() <= usize::MAX);
        }
        if is_grant {
            assert(granted_count(before) <= before.len()) by {
                lemma_granted_count_bounded(before);
            }
            self.granted = self.granted + 1;
        }
    }

    /// True once distinct granting senders have reached the quorum size.
    pub fn has_quorum(&self) -> (r: bool)
        requires
            self.wf(),
        ensures
            r == self@.has_quorum(),
    {
        proof {
            lemma_granted_count_is_set_size(self.responses@);
        }
        self.granted >= self.quorum_size
    }

    /// True if some recorded refusal names a ballot at or above `ballot`.
    pub fn any_rejection_at_or_above(&self, ballot: BallotNumber) -> (r: bool)
        ensures
            r == rejected_at_or_above(self@.responses, ballot),
    {
        let mut i: usize = 0;
        while i < self.responses.len()
            invariant
                i <= self.responses.len(),
                forall|j: int|
                    0 <= j < i ==> !(#[trigger] self.responses@[j].outcome matches Outcome::Rejected(
                        seen,
                    ) && ballot.le(seen)),
            decreases self.responses.len() - i,
        {
            match self.responses[i].outcome {
                Outcome::Rejected(seen) => {
                    if ballot.at_most(&seen) {
                        return true;
                    }
                },
                Outcome::Granted => {},
            }
            i += 1;
        }
        false
    }

    /// Number of distinct senders that granted.
    pub fn granted(&self) -> (n: usize)
        requires
            self.wf(),
        ensures
            n == granted_senders(self@.responses).len(),
    {
        proof {
            lemma_granted_count_is_set_size(self.responses@);
        }
        self.granted
    }

    /// The quorum size this tally was made with.
    pub fn quorum_size(&self) -> (q: usize)
        ensures
            q == self@.quorum_size,
    {
        self.quorum_size
    }
}

/// There are no more grants than responses.
pub proof fn lemma_granted_count_bounded(s: Seq<Response>)
    ensures
        granted_count(s) <= s.len(),
    decreases s.len(),
{
    if s.len() > 0 {
        lemma_granted_count_bounded(s.drop_last());
    }
}

} // verus!
