//! The fixed set of acceptor identities known to every node.

use crate::ballot::NodeId;
use crate::quorum::{quorum_size, spec_quorum_size};
use vstd::prelude::*;

verus! {

/// No identity occurs twice.
pub open spec fn distinct(ids: Seq<NodeId>) -> bool {
    forall|i: int, j: int| 0 <= i < j < ids.len() ==> ids[i] != ids[j]
}

/// The identities of `ids` in order of first occurrence.
pub open spec fn first_occurrences(ids: Seq<NodeId>) -> Seq<NodeId>
    decreases ids.len(),
{
    if ids.len() == 0 {
        Seq::empty()
    } else {
        let rest = first_occurrences(ids.drop_last());
        if rest.contains(ids.last()) {
            rest
        } else {
            rest.push(ids.last())
        }
    }
}

/// `first_occurrences` keeps exactly the identities given, each once.
pub proof fn lemma_first_occurrences(ids: Seq<NodeId>)
    ensures
        distinct(first_occurrences(ids)),
        first_occurrences(ids).len() <= ids.len(),
        forall|id: NodeId| first_occurrences(ids).contains(id) <==> ids.contains(id),
    decreases ids.len(),
{
    if ids.len() > 0 {
        let front = ids.drop_last();
        let rest = first_occurrences(front);
        lemma_first_occurrences(front);
        assert forall|id: NodeId| first_occurrences(ids).contains(id) <==> ids.contains(id) by {
            if ids.contains(id) {
                let i = choose|i: int| 0 <= i < ids.len() && ids[i] == id;
                if i < front.len() {
                    assert(front[i] == id);
                    assert(front.contains(id));
                    assert(rest.contains(id));
                }
                if !rest.contains(ids.last()) {
                    assert(rest.push(ids.last())[rest.len() as int] == ids.last());
                    if rest.contains(id) {
                        let k = choose|k: int| 0 <= k < rest.len() && rest[k] == id;
                        assert(rest.push(ids.last())[k] == id);
                    }
                }
            }
            if first_occurrences(ids).contains(id) {
                let k = choose|k: int|
                    0 <= k < first_occurrences(ids).len() && first_occurrences(ids)[k] == id;
                if k < rest.len() {
                    assert(rest[k] == id);
                    assert(rest.contains(id));
                    assert(front.contains(id));
                    let i = choose|i: int| 0 <= i < front.len() && front[i] == id;
                    assert(ids[i] == id);
                } else {
                    assert(ids[ids.len() - 1] == id);
                }
            }
        }
    }
}

/// The acceptor set. Its size `N` fixes the quorum size `floor(N / 2) + 1`.
pub struct Membership {
    ids: Vec<NodeId>,
}

impl View for Membership {
    type V = Seq<NodeId>;

    closed spec fn view(&self) -> Seq<NodeId> {
        self.ids@
    }
}

impl Membership {
    pub open spec fn wf(&self) -> bool {
        distinct(self@)
    }

    /// The membership made of the given identities; repetitions are dropped.
    pub fn from_ids(ids: &Vec<NodeId>) -> (m: Membership)
        ensures
            m.wf(),
            m@ == first_occurrences(ids@),
    {
        let mut kept: Vec<NodeId> = Vec::new();
        let mut i: usize = 0;
        while i < ids.len()
            invariant
                i <= ids.len(),
                kept@ == first_occurrences(ids@.subrange(0, i as int)),
            decreases ids.len() - i,
        {
            let id = ids[i];
            proof {
                assert(ids@.subrange(0, i + 1).drop_last() =~= ids@.subrange(0, i as int));
                assert(ids@.subrange(0, i + 1).last() == id);
            }
            if !contains_id(&kept, id) {
                kept.push(id);
            }
            i += 1;
        }
        proof {
            assert(ids@.subrange(0, ids.len() as int) =~= ids@);
            lemma_first_occurrences(ids@);
        }
        Membership { ids: kept }
    }

    /// Whether `id` is an acceptor.
    pub fn contains(&self, id: NodeId) -> (r: bool)
        ensures
            r == self@.contains(id),
    {
        contains_id(&self.ids, id)
    }

    /// Number of acceptors, `N`.
    pub fn size(&self) -> (n: usize)
        ensures
            n == self@.len(),
    {
        self.ids.len()
    }

    /// Size of a majority, `floor(N / 2) + 1`.
    pub fn quorum_size(&self) -> (q: usize)
        ensures
            q == spec_quorum_size(self@.len()),
    {
        quorum_size(self.ids.len())
    }

    /// The identities, in order.
    pub fn ids(&self) -> (v: Vec<NodeId>)
        ensures
            v@ == self@,
    {
        let mut out: Vec<NodeId> = Vec::new();
        let mut i: usize = 0;
        while i < self.ids.len()
            invariant
                i <= self.ids.len(),
                out@ == self.ids@.subrange(0, i as int),
            decreases self.ids.len() - i,
        {
            out.push(self.ids[i]);
            assert(self.ids@.subrange(0, i as int).push(self.ids@[i as int])
                =~= self.ids@.subrange(0, i + 1));
            i += 1;
        }
        assert(self.ids@.subrange(0, self.ids.len() as int) =~= self.ids@);
        out
    }
}

/// Linear search for an identity.
pub fn contains_id(ids: &Vec<NodeId>, id: NodeId) -> (r: bool)
    ensures
        r == ids@.contains(id),
{
    let mut i: usize = 0;
    while i < ids.len()
        invariant
            i <= ids.len(),
            forall|j: int| 0 <= j < i ==> ids@[j] != id,
        decreases ids.len() - i,
    {
        if ids[i] == id {
            return true;
        }
        i += 1;
    }
    false
}

} // verus!
