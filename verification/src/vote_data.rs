//! Input snapshot for one computation: the ordered delegate and policy id
//! lists and the weight assignment cast by each delegate.

use vstd::prelude::*;

verus! {

/// Opaque node identifier. Delegates and policies draw from one id space;
/// the caller guarantees that ids never collide across the two kinds.
#[derive(PartialEq, Eq, Structural, Clone, Copy, Debug, Hash)]
pub struct NodeId(pub u128);

/// One delegate's cast votes: `(target id, fixed-point weight)` pairs.
/// A target may be another delegate or a policy.
pub type Votes = Vec<(NodeId, u64)>;

/// A complete snapshot of one vote. The position of a delegate in
/// `delegates` fixes its matrix column and row; policy `p` sits at row
/// `delegates.len() + p`. `votes[x]` is the assignment of `delegates[x]`.
pub struct VoteData {
    /// Delegate ids in their fixed order.
    pub delegates: Vec<NodeId>,
    /// Policy ids in their fixed order.
    pub policies: Vec<NodeId>,
    /// Per-delegate weight assignments, aligned with `delegates`.
    pub votes: Vec<Votes>,
}

impl VoteData {
    /// The snapshot is structurally sound: exactly one assignment per delegate.
    pub open spec fn wf(&self) -> bool {
        self.votes@.len() == self.delegates@.len()
    }

    /// Bundles the parts of a snapshot, one assignment per delegate.
    pub fn new(delegates: Vec<NodeId>, policies: Vec<NodeId>, votes: Vec<Votes>) -> (r: Self)
        requires
            votes@.len() == delegates@.len(),
        ensures
            r.wf(),
            r.delegates == delegates,
            r.policies == policies,
            r.votes == votes,
    {
        VoteData { delegates, policies, votes }
    }
}

} // verus!
