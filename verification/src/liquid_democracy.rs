//! The liquid-democracy engine: graph assembly, absorption solving and
//! score extraction over one snapshot.
//!
//! `create_matrix` turns a snapshot into the transition matrix over the
//! unified node set (delegates first, then policies), rejecting assignments
//! that name unknown or repeated targets or that exceed one unit of weight.
//! `calculate` powers that matrix, checks that all weight has drained out of
//! the delegate sub-block, and extracts the policy outcome scores and the
//! delegate influence ratios.

use vstd::prelude::*;
use vstd::arithmetic::div_mod::{
    lemma_div_is_ordered, lemma_div_is_ordered_by_denominator, lemma_div_multiples_vanish,
    lemma_div_plus_one,
};
use vstd::arithmetic::mul::lemma_mul_inequality;
use crate::matrix::{
    col_sum_prefix, entries_at_most, is_square, row_sum_prefix, substochastic, Matrix, SCALE,
};
use crate::solver::{cumulative_spec, power_spec, solve};
use crate::vote_data::{NodeId, VoteData};

verus! {

/// Number of absorption steps the solver runs.
pub const ITERATION: u32 = 10_000;

/// Largest admitted delegate count; keeps every influence numerator within
/// a `u64`.
pub const MAX_DELEGATES: usize = 1_000_000_000;

/// The two score maps, keyed in input order: per-policy outcome scores and
/// per-delegate influence ratios, both scaled by `SCALE`.
pub type LDResult = (Vec<(NodeId, u64)>, Vec<(NodeId, u64)>);

/// Why a computation was refused; detected errors are terminal and no
/// partial result is ever returned.
#[derive(PartialEq, Eq, Structural, Clone, Copy, Debug)]
pub enum ComputeError {
    /// An assignment references an id that is neither a delegate nor a
    /// policy, or names one target twice.
    Validation,
    /// A delegate's weights sum to more than one unit.
    MalformedAssignment,
    /// Weight was still circulating among delegates after the last step.
    NonConvergence,
}

/// Index of the first occurrence of `id` in `ids` (meaningful only when
/// `ids` contains `id`).
pub open spec fn first_index(ids: Seq<NodeId>, id: NodeId) -> int
    decreases ids.len(),
{
    if ids.len() == 0 {
        0
    } else if ids[0] == id {
        0
    } else {
        1 + first_index(ids.drop_first(), id)
    }
}

/// Row of `id` in the unified node order, delegates first, then policies;
/// `-1` when the id is unknown.
pub open spec fn target_row(dels: Seq<NodeId>, pols: Seq<NodeId>, id: NodeId) -> int {
    if dels.contains(id) {
        first_index(dels, id)
    } else if pols.contains(id) {
        dels.len() + first_index(pols, id)
    } else {
        -1
    }
}

/// Every target of one assignment resolves to a known node and no target
/// repeats.
pub open spec fn votes_valid(votes: Seq<(NodeId, u64)>, dels: Seq<NodeId>, pols: Seq<NodeId>) -> bool {
    (forall|t: int|
        0 <= t < votes.len() ==> target_row(dels, pols, (#[trigger] votes[t]).0) >= 0)
        && (forall|t1: int, t2: int|
        #![trigger votes[t1], votes[t2]]
        0 <= t1 < t2 < votes.len() ==> votes[t1].0 != votes[t2].0)
}

/// Every assignment of the snapshot is valid.
pub open spec fn snapshot_resolves(s: VoteData) -> bool {
    forall|x: int|
        0 <= x < s.delegates@.len() ==> votes_valid(
            (#[trigger] s.votes@[x])@,
            s.delegates@,
            s.policies@,
        )
}

/// Weight that an assignment gives the node at row `y`: the weight of the
/// last entry naming that row, zero when none does.
pub open spec fn assigned_weight(
    votes: Seq<(NodeId, u64)>,
    dels: Seq<NodeId>,
    pols: Seq<NodeId>,
    y: int,
) -> int
    decreases votes.len(),
{
    if votes.len() == 0 {
        0
    } else if target_row(dels, pols, votes.last().0) == y {
        votes.last().1 as int
    } else {
        assigned_weight(votes.drop_last(), dels, pols, y)
    }
}

/// Dimension of the snapshot's node set.
pub open spec fn node_count(s: VoteData) -> nat {
    s.delegates@.len() + s.policies@.len()
}

/// The transition matrix induced by a snapshot: delegate columns carry the
/// assignments, each policy column holds one unit at its own row and zero
/// elsewhere.
pub open spec fn matrix_spec(s: VoteData) -> Seq<Seq<u64>> {
    let dd = s.delegates@.len() as int;
    Seq::new(
        node_count(s),
        |y: int|
            Seq::new(
                node_count(s),
                |x: int|
                    if x < dd {
                        assigned_weight(s.votes@[x]@, s.delegates@, s.policies@, y) as u64
                    } else if y == x {
                        SCALE
                    } else {
                        0u64
                    },
            ),
    )
}

/// Sum of the weights of the first `k` entries of an assignment.
pub open spec fn votes_sum_prefix(votes: Seq<(NodeId, u64)>, k: int) -> int
    decreases k,
{
    if k <= 0 {
        0
    } else {
        votes_sum_prefix(votes, k - 1) + votes[k - 1].1
    }
}

/// Sum of `assigned_weight` over rows `y < k`.
spec fn assigned_sum(votes: Seq<(NodeId, u64)>, dels: Seq<NodeId>, pols: Seq<NodeId>, k: int) -> int
    decreases k,
{
    if k <= 0 {
        0
    } else {
        assigned_sum(votes, dels, pols, k - 1) + assigned_weight(votes, dels, pols, k - 1)
    }
}

/// `first_index` of a contained id is in range and finds the id.
proof fn lemma_first_index_props(ids: Seq<NodeId>, id: NodeId)
    requires
        ids.contains(id),
    ensures
        0 <= first_index(ids, id) < ids.len(),
        ids[first_index(ids, id)] == id,
    decreases ids.len(),
{
    if ids[0] != id {
        assert(ids.drop_first().contains(id)) by {
            let w = choose|w: int| 0 <= w < ids.len() && ids[w] == id;
            assert(ids.drop_first()[w - 1] == id);
        }
        lemma_first_index_props(ids.drop_first(), id);
    }
}

/// A resolved row lies inside the unified node set.
proof fn lemma_target_row_range(dels: Seq<NodeId>, pols: Seq<NodeId>, id: NodeId)
    requires
        target_row(dels, pols, id) >= 0,
    ensures
        target_row(dels, pols, id) < dels.len() + pols.len(),
{
    if dels.contains(id) {
        lemma_first_index_props(dels, id);
    } else {
        lemma_first_index_props(pols, id);
    }
}

/// Distinct ids never resolve to the same row.
proof fn lemma_target_row_injective(dels: Seq<NodeId>, pols: Seq<NodeId>, id1: NodeId, id2: NodeId)
    requires
        target_row(dels, pols, id1) >= 0,
        target_row(dels, pols, id1) == target_row(dels, pols, id2),
    ensures
        id1 == id2,
{
    if dels.contains(id1) {
        lemma_first_index_props(dels, id1);
    } else {
        lemma_first_index_props(pols, id1);
    }
    if dels.contains(id2) {
        lemma_first_index_props(dels, id2);
    } else {
        lemma_first_index_props(pols, id2);
    }
}

/// A row that no entry of the assignment names carries no weight.
proof fn lemma_assigned_weight_absent(
    votes: Seq<(NodeId, u64)>,
    dels: Seq<NodeId>,
    pols: Seq<NodeId>,
    y: int,
)
    requires
        forall|t: int| 0 <= t < votes.len() ==> target_row(dels, pols, (#[trigger] votes[t]).0) != y,
    ensures
        assigned_weight(votes, dels, pols, y) == 0,
    decreases votes.len(),
{
    if votes.len() > 0 {
        assert(votes[votes.len() - 1] == votes.last());
        assert forall|t: int| 0 <= t < votes.drop_last().len() implies target_row(
            dels,
            pols,
            (#[trigger] votes.drop_last()[t]).0,
        ) != y by {
            assert(votes.drop_last()[t] == votes[t]);
        }
        lemma_assigned_weight_absent(votes.drop_last(), dels, pols, y);
    }
}

/// An assigned weight is a single `u64` weight or zero.
proof fn lemma_assigned_weight_range(
    votes: Seq<(NodeId, u64)>,
    dels: Seq<NodeId>,
    pols: Seq<NodeId>,
    y: int,
)
    ensures
        0 <= assigned_weight(votes, dels, pols, y) <= u64::MAX,
    decreases votes.len(),
{
    if votes.len() > 0 {
        lemma_assigned_weight_range(votes.drop_last(), dels, pols, y);
    }
}

/// An empty assignment puts no weight anywhere.
proof fn lemma_assigned_sum_zero(votes: Seq<(NodeId, u64)>, dels: Seq<NodeId>, pols: Seq<NodeId>, k: int)
    requires
        votes.len() == 0,
    ensures
        assigned_sum(votes, dels, pols, k) == 0,
    decreases k,
{
    if k > 0 {
        lemma_assigned_sum_zero(votes, dels, pols, k - 1);
    }
}

/// A weight-sum prefix only reads the entries it covers.
proof fn lemma_votes_sum_prefix_agree(v1: Seq<(NodeId, u64)>, v2: Seq<(NodeId, u64)>, k: int)
    requires
        forall|t: int| 0 <= t < k ==> v1[t] == v2[t],
    ensures
        votes_sum_prefix(v1, k) == votes_sum_prefix(v2, k),
    decreases k,
{
    if k > 0 {
        lemma_votes_sum_prefix_agree(v1, v2, k - 1);
    }
}

/// Dropping the last entry of a duplicate-free assignment removes exactly
/// its weight from the rows it covers.
proof fn lemma_assigned_sum_step(
    votes: Seq<(NodeId, u64)>,
    dels: Seq<NodeId>,
    pols: Seq<NodeId>,
    k: int,
)
    requires
        votes.len() > 0,
        votes_valid(votes, dels, pols),
    ensures
        assigned_sum(votes, dels, pols, k) == assigned_sum(votes.drop_last(), dels, pols, k) + if 0
            <= target_row(dels, pols, votes.last().0) < k {
            votes.last().1 as int
        } else {
            0
        },
    decreases k,
{
    if k > 0 {
        lemma_assigned_sum_step(votes, dels, pols, k - 1);
        let r = target_row(dels, pols, votes.last().0);
        assert(votes[votes.len() - 1] == votes.last());
        if r == k - 1 {
            assert forall|t: int| 0 <= t < votes.drop_last().len() implies target_row(
                dels,
                pols,
                (#[trigger] votes.drop_last()[t]).0,
            ) != r by {
                assert(votes.drop_last()[t] == votes[t]);
                if target_row(dels, pols, votes[t].0) == r {
                    lemma_target_row_injective(dels, pols, votes.last().0, votes[t].0);
                }
            }
            lemma_assigned_weight_absent(votes.drop_last(), dels, pols, r);
        }
    }
}

/// The weight of a valid assignment lands exactly once each: summed over
/// every row of the node set, the assigned weights add up to the
/// assignment's total weight.
proof fn lemma_assigned_sum_total(
    votes: Seq<(NodeId, u64)>,
    dels: Seq<NodeId>,
    pols: Seq<NodeId>,
    n: int,
)
    requires
        votes_valid(votes, dels, pols),
        n == dels.len() + pols.len(),
    ensures
        assigned_sum(votes, dels, pols, n) == votes_sum_prefix(votes, votes.len() as int),
    decreases votes.len(),
{
    if votes.len() == 0 {
        lemma_assigned_sum_zero(votes, dels, pols, n);
    } else {
        let vd = votes.drop_last();
        assert(votes[votes.len() - 1] == votes.last());
        assert forall|t: int| 0 <= t < vd.len() implies target_row(
            dels,
            pols,
            (#[trigger] vd[t]).0,
        ) >= 0 by {
            assert(vd[t] == votes[t]);
        }
        assert forall|t1: int, t2: int|
            #![trigger vd[t1], vd[t2]]
            0 <= t1 < t2 < vd.len() implies vd[t1].0 != vd[t2].0 by {
            assert(vd[t1] == votes[t1]);
            assert(vd[t2] == votes[t2]);
        }
        lemma_assigned_sum_total(vd, dels, pols, n);
        lemma_assigned_sum_step(votes, dels, pols, n);
        lemma_target_row_range(dels, pols, votes.last().0);
        lemma_votes_sum_prefix_agree(votes, vd, votes.len() - 1);
    }
}

/// A delegate column of the assembled matrix sums to the assigned weights.
proof fn lemma_col_sum_is_assigned_sum(s: VoteData, x: int, k: int)
    requires
        s.wf(),
        0 <= x < s.delegates@.len(),
        0 <= k <= node_count(s),
    ensures
        col_sum_prefix(matrix_spec(s), x, k) == assigned_sum(
            s.votes@[x]@,
            s.delegates@,
            s.policies@,
            k,
        ),
    decreases k,
{
    if k > 0 {
        lemma_col_sum_is_assigned_sum(s, x, k - 1);
        lemma_assigned_weight_range(s.votes@[x]@, s.delegates@, s.policies@, k - 1);
        assert(matrix_spec(s)[k - 1][x] == assigned_weight(
            s.votes@[x]@,
            s.delegates@,
            s.policies@,
            k - 1,
        ) as u64);
    }
}

/// A policy column sums to one unit once its own row is covered.
proof fn lemma_policy_col_sum(s: VoteData, x: int, k: int)
    requires
        s.delegates@.len() <= x < node_count(s),
        0 <= k <= node_count(s),
    ensures
        col_sum_prefix(matrix_spec(s), x, k) == if x < k {
            SCALE as int
        } else {
            0
        },
    decreases k,
{
    if k > 0 {
        lemma_policy_col_sum(s, x, k - 1);
        assert(matrix_spec(s)[k - 1][x] == if k - 1 == x {
            SCALE
        } else {
            0u64
        });
    }
}

/// A valid snapshot's matrix is substochastic exactly when every delegate's
/// weights sum to at most one unit: each delegate column of the matrix sums
/// to that delegate's total assigned weight, and each policy column to
/// exactly one unit.
pub proof fn lemma_substochastic_iff_weight_sums(s: VoteData)
    requires
        s.wf(),
        snapshot_resolves(s),
    ensures
        forall|x: int|
            0 <= x < s.delegates@.len() ==> col_sum_prefix(matrix_spec(s), x, node_count(s) as int)
                == votes_sum_prefix((#[trigger] s.votes@[x])@, s.votes@[x]@.len() as int),
        substochastic(matrix_spec(s), node_count(s)) <==> (forall|x: int|
            0 <= x < s.delegates@.len() ==> votes_sum_prefix(
                (#[trigger] s.votes@[x])@,
                s.votes@[x]@.len() as int,
            ) <= SCALE),
{
    let n = node_count(s) as int;
    assert forall|x: int| 0 <= x < s.delegates@.len() implies col_sum_prefix(
        matrix_spec(s),
        x,
        n,
    ) == votes_sum_prefix((#[trigger] s.votes@[x])@, s.votes@[x]@.len() as int) by {
        lemma_col_sum_is_assigned_sum(s, x, n);
        lemma_assigned_sum_total(s.votes@[x]@, s.delegates@, s.policies@, n);
    }
    if forall|x: int|
        0 <= x < s.delegates@.len() ==> votes_sum_prefix(
            (#[trigger] s.votes@[x])@,
            s.votes@[x]@.len() as int,
        ) <= SCALE {
        assert forall|j: int| 0 <= j < node_count(s) implies col_sum_prefix(
            matrix_spec(s),
            j,
            n,
        ) <= SCALE by {
            if j < s.delegates@.len() {
                assert(votes_sum_prefix(s.votes@[j]@, s.votes@[j]@.len() as int) <= SCALE);
            } else {
                lemma_policy_col_sum(s, j, n);
            }
        }
    }
}

/// The first occurrence found by a left-to-right scan is `first_index`.
proof fn lemma_first_index_of_match(ids: Seq<NodeId>, id: NodeId, i: int)
    requires
        0 <= i < ids.len(),
        ids[i] == id,
        forall|t: int| 0 <= t < i ==> ids[t] != id,
    ensures
        ids.contains(id),
        first_index(ids, id) == i,
    decreases i,
{
    if i == 0 {
    } else {
        assert(ids.drop_first()[i - 1] == id);
        lemma_first_index_of_match(ids.drop_first(), id, i - 1);
    }
}

/// Looks up the first position of `id` in `ids`.
fn find_first(ids: &Vec<NodeId>, id: NodeId) -> (r: Option<usize>)
    ensures
        match r {
            Some(i) => i < ids@.len() && ids@[i as int] == id && first_index(ids@, id) == i
                && ids@.contains(id),
            None => !ids@.contains(id),
        },
{
    let mut i: usize = 0;
    while i < ids.len()
        invariant
            i <= ids@.len(),
            forall|t: int| 0 <= t < i ==> ids@[t] != id,
        decreases ids@.len() - i,
    {
        if ids[i] == id {
            proof {
                lemma_first_index_of_match(ids@, id, i as int);
            }
            return Some(i);
        }
        i += 1;
    }
    None
}

/// Resolves a target id to its matrix row, trying delegates first.
fn resolve_row(dels: &Vec<NodeId>, pols: &Vec<NodeId>, id: NodeId) -> (r: Option<usize>)
    requires
        dels@.len() + pols@.len() <= usize::MAX,
    ensures
        match r {
            Some(y) => target_row(dels@, pols@, id) == y && y < dels@.len() + pols@.len(),
            None => target_row(dels@, pols@, id) == -1,
        },
{
    match find_first(dels, id) {
        Some(i) => Some(i),
        None => {
            match find_first(pols, id) {
                Some(p) => Some(dels.len() + p),
                None => None,
            }
        },
    }
}

/// A column of `n` zero entries.
fn zero_col(n: usize) -> (r: Vec<u64>)
    ensures
        r@.len() == n,
        forall|y: int| 0 <= y < n ==> r@[y] == 0u64,
{
    let mut col: Vec<u64> = Vec::new();
    let mut i: usize = 0;
    while i < n
        invariant
            i <= n,
            col@.len() == i,
            forall|y: int| 0 <= y < i ==> col@[y] == 0u64,
        decreases n - i,
    {
        col.push(0);
        i += 1;
    }
    col
}

/// The engine over one immutable snapshot; it holds no cross-call state.
pub struct LiquidDemocracy {
    /// The snapshot this engine computes from.
    pub info: VoteData,
}

impl LiquidDemocracy {
    /// Wraps a snapshot for computation.
    pub fn new(info: VoteData) -> (r: Self)
        ensures
            r.info == info,
    {
        Self { info }
    }

    /// Assembles the transition matrix of the snapshot. The result is the
    /// `(D+P)×(D+P)` matrix of `matrix_spec`, with each policy column an
    /// absorbing unit vector; assignments naming unknown or repeated
    /// targets are rejected as `Validation`, and ones emitting more than a
    /// unit of weight as `MalformedAssignment`.
    pub fn create_matrix(&self) -> (r: Result<Matrix, ComputeError>)
        requires
            self.info.wf(),
            node_count(self.info) <= usize::MAX,
        ensures
            match r {
                Ok(m) => {
                    &&& m.wf()
                    &&& m@ == matrix_spec(self.info)
                    &&& is_square(m@, node_count(self.info))
                    &&& snapshot_resolves(self.info)
                    &&& substochastic(m@, node_count(self.info))
                    &&& forall|p: int|
                        self.info.delegates@.len() <= p < node_count(self.info)
                            ==> #[trigger] m@[p][p] == SCALE
                    &&& forall|p: int, q: int|
                        #![trigger m@[p][q]]
                        self.info.delegates@.len() <= p < node_count(self.info)
                            && self.info.delegates@.len() <= q < node_count(self.info) && p != q
                            ==> m@[p][q] == 0
                },
                Err(ComputeError::Validation) => !snapshot_resolves(self.info),
                Err(ComputeError::MalformedAssignment) => snapshot_resolves(self.info)
                    && !substochastic(matrix_spec(self.info), node_count(self.info)),
                Err(ComputeError::NonConvergence) => false,
            },
    {
        let dd = self.info.delegates.len();
        let pp = self.info.policies.len();
        let n = dd + pp;
        let ghost dels = self.info.delegates@;
        let ghost pols = self.info.policies@;
        let mut cols: Vec<Vec<u64>> = Vec::new();
        let mut x: usize = 0;
        while x < dd
            invariant
                x <= dd,
                self.info.wf(),
                dd == dels.len(),
                pp == pols.len(),
                n == dd + pp,
                dels == self.info.delegates@,
                pols == self.info.policies@,
                cols@.len() == x,
                forall|c: int| 0 <= c < x ==> (#[trigger] cols@[c])@.len() == n,
                forall|c: int, y: int|
                    #![trigger cols@[c]@[y]]
                    0 <= c < x && 0 <= y < n ==> cols@[c]@[y] as int == assigned_weight(
                        self.info.votes@[c]@,
                        dels,
                        pols,
                        y,
                    ),
                forall|c: int|
                    0 <= c < x ==> votes_valid((#[trigger] self.info.votes@[c])@, dels, pols),
            decreases dd - x,
        {
            let votes = &self.info.votes[x];
            let ghost vs = votes@;
            let mut col: Vec<u64> = zero_col(n);
            let mut t: usize = 0;
            proof {
                assert(vs.take(0) =~= Seq::<(NodeId, u64)>::empty());
            }
            while t < votes.len()
                invariant
                    t <= vs.len(),
                    votes@ == vs,
                    x < dd,
                    self.info.wf(),
                    dels == self.info.delegates@,
                    pols == self.info.policies@,
                    vs == self.info.votes@[x as int]@,
                    dd == dels.len(),
                    pp == pols.len(),
                    n == dd + pp,
                    col@.len() == n,
                    forall|y: int|
                        0 <= y < n ==> (#[trigger] col@[y]) as int == assigned_weight(
                            vs.take(t as int),
                            dels,
                            pols,
                            y,
                        ),
                    forall|u: int| 0 <= u < t ==> target_row(dels, pols, (#[trigger] vs[u]).0) >= 0,
                    forall|u1: int, u2: int|
                        #![trigger vs[u1], vs[u2]]
                        0 <= u1 < u2 < t ==> vs[u1].0 != vs[u2].0,
                decreases vs.len() - t,
            {
                let (to, w) = votes[t];
                let mut u: usize = 0;
                while u < t
                    invariant
                        u <= t,
                        t < vs.len(),
                        votes@ == vs,
                        x < dd,
                        self.info.wf(),
                        dels == self.info.delegates@,
                        pols == self.info.policies@,
                        vs == self.info.votes@[x as int]@,
                        dd == dels.len(),
                        to == vs[t as int].0,
                        forall|v: int| 0 <= v < u ==> (#[trigger] vs[v]).0 != to,
                    decreases t - u,
                {
                    if votes[u].0 == to {
                        proof {
                            assert(vs[u as int].0 == vs[t as int].0);
                            assert(!votes_valid(vs, dels, pols));
                            assert(!snapshot_resolves(self.info)) by {
                                assert(self.info.votes@[x as int]@ == vs);
                            }
                        }
                        return Err(ComputeError::Validation);
                    }
                    u += 1;
                }
                match resolve_row(&self.info.delegates, &self.info.policies, to) {
                    None => {
                        proof {
                            assert((vs[t as int]).0 == to);
                            assert(!votes_valid(vs, dels, pols));
                            assert(self.info.votes@[x as int]@ == vs);
                        }
                        return Err(ComputeError::Validation);
                    },
                    Some(y) => {
                        let ghost old_col = col@;
                        col[y] = w;
                        proof {
                            let tt = t as int;
                            assert(vs.take(tt + 1).drop_last() =~= vs.take(tt));
                            assert(vs.take(tt + 1).last() == vs[tt]);
                            assert forall|z: int| 0 <= z < n implies (#[trigger] col@[z]) as int
                                == assigned_weight(vs.take(tt + 1), dels, pols, z) by {
                                if z == y as int {
                                    assert(col@[z] == w);
                                } else {
                                    assert(col@[z] == old_col[z]);
                                }
                            }
                        }
                        t += 1;
                    },
                }
            }
            proof {
                assert(vs.take(t as int) =~= vs);
                assert(votes_valid(vs, dels, pols));
                assert(self.info.votes@[x as int]@ == vs);
            }
            cols.push(col);
            x += 1;
        }
        let mut p: usize = 0;
        while p < pp
            invariant
                p <= pp,
                self.info.wf(),
                dd == dels.len(),
                pp == pols.len(),
                n == dd + pp,
                dels == self.info.delegates@,
                pols == self.info.policies@,
                cols@.len() == dd + p,
                forall|c: int| 0 <= c < dd + p ==> (#[trigger] cols@[c])@.len() == n,
                forall|c: int, y: int|
                    #![trigger cols@[c]@[y]]
                    0 <= c < dd && 0 <= y < n ==> cols@[c]@[y] as int == assigned_weight(
                        self.info.votes@[c]@,
                        dels,
                        pols,
                        y,
                    ),
                forall|c: int|
                    0 <= c < dd ==> votes_valid((#[trigger] self.info.votes@[c])@, dels, pols),
                forall|c: int, y: int|
                    #![trigger cols@[c]@[y]]
                    dd <= c < dd + p && 0 <= y < n ==> cols@[c]@[y] == if y == c {
                        SCALE
                    } else {
                        0u64
                    },
            decreases pp - p,
        {
            let mut col: Vec<u64> = zero_col(n);
            col[dd + p] = SCALE;
            cols.push(col);
            p += 1;
        }
        let m = Matrix { cols };
        proof {
            assert(m@ =~~= matrix_spec(self.info));
        }
        let mut j: usize = 0;
        while j < n
            invariant
                j <= n,
                m.wf(),
                m@.len() == n,
                m@ == matrix_spec(self.info),
                n == node_count(self.info),
                snapshot_resolves(self.info),
                forall|c: int| 0 <= c < j ==> col_sum_prefix(m@, c, n as int) <= SCALE,
            decreases n - j,
        {
            let mut acc: u128 = 0;
            let mut i: usize = 0;
            while i < n
                invariant
                    i <= n,
                    j < n,
                    m.wf(),
                    m@.len() == n,
                    acc == col_sum_prefix(m@, j as int, i as int),
                    acc <= (i as int) * (u64::MAX as int),
                decreases n - i,
            {
                let e = m.entry(i, j);
                proof {
                    lemma_mul_inequality(i as int + 1, n as int, u64::MAX as int);
                    assert((i as int) * (u64::MAX as int) + u64::MAX as int == (i as int + 1) * (
                    u64::MAX as int)) by (nonlinear_arith);
                }
                acc = acc + e as u128;
                i += 1;
            }
            if acc > SCALE as u128 {
                return Err(ComputeError::MalformedAssignment);
            }
            j += 1;
        }
        Ok(m)
    }
}

/// Total weight, scaled by `SCALE`, absorbed into policy `p` from all
/// delegate origins after `ITERATION` steps.
pub open spec fn outcome_spec(s: VoteData, p: int) -> int {
    row_sum_prefix(
        power_spec(matrix_spec(s), node_count(s), ITERATION as nat),
        s.delegates@.len() + p,
        s.delegates@.len() as int,
    )
}

/// Influence ratio of delegate `d`, scaled by `SCALE`: the expected visits
/// to `d` from every starting delegate, divided by `d`'s self-revisit count.
pub open spec fn influence_spec(s: VoteData, d: int) -> int {
    let cum = cumulative_spec(matrix_spec(s), node_count(s), ITERATION as nat);
    (row_sum_prefix(cum, d, s.delegates@.len() as int) * SCALE) / (cum[d][d] as int)
}

/// After the last step no weight is still circulating among delegates: the
/// delegate sub-block of the final power has drained to zero.
pub open spec fn converged_spec(s: VoteData) -> bool {
    forall|i: int, j: int|
        0 <= i < s.delegates@.len() && 0 <= j < s.delegates@.len()
            ==> #[trigger] power_spec(matrix_spec(s), node_count(s), ITERATION as nat)[i][j] == 0
}

/// Sum of `m[i][0 .. dd]`: the weight in row `i` contributed by every
/// delegate column, with every entry known to be at most `bound`.
fn row_sum(m: &Matrix, i: usize, dd: usize, bound: u64) -> (r: u64)
    requires
        m.wf(),
        i < m@.len(),
        dd <= m@.len(),
        entries_at_most(m@, m@.len(), bound as int),
        dd * bound <= u64::MAX,
    ensures
        r as int == row_sum_prefix(m@, i as int, dd as int),
{
    let mut acc: u64 = 0;
    let mut t: usize = 0;
    while t < dd
        invariant
            t <= dd,
            m.wf(),
            i < m@.len(),
            dd <= m@.len(),
            entries_at_most(m@, m@.len(), bound as int),
            dd * bound <= u64::MAX,
            acc as int == row_sum_prefix(m@, i as int, t as int),
            acc <= (t as int) * (bound as int),
        decreases dd - t,
    {
        let e = m.entry(i, t);
        proof {
            assert(e <= bound);
            lemma_mul_inequality(t as int + 1, dd as int, bound as int);
            assert((t as int) * (bound as int) + bound as int == (t as int + 1) * (bound as int))
                by (nonlinear_arith);
        }
        acc = acc + e;
        t += 1;
    }
    acc
}

impl LiquidDemocracy {
    /// Runs the full computation: assembles the matrix, powers it
    /// `ITERATION` times, and extracts the outcome score of every policy
    /// and the influence ratio of every delegate, each keyed by its id in
    /// input order. Errors are terminal: no partial result is returned.
    pub fn calculate(&self) -> (r: Result<LDResult, ComputeError>)
        requires
            self.info.wf(),
            node_count(self.info) <= usize::MAX,
            self.info.delegates@.len() <= MAX_DELEGATES,
        ensures
            match r {
                Ok(res) => {
                    &&& snapshot_resolves(self.info)
                    &&& substochastic(matrix_spec(self.info), node_count(self.info))
                    &&& converged_spec(self.info)
                    &&& res.0@.len() == self.info.policies@.len()
                    &&& forall|p: int|
                        0 <= p < self.info.policies@.len() ==> (#[trigger] res.0@[p]).0
                            == self.info.policies@[p] && res.0@[p].1 as int == outcome_spec(
                            self.info,
                            p,
                        )
                    &&& res.1@.len() == self.info.delegates@.len()
                    &&& forall|d: int|
                        0 <= d < self.info.delegates@.len() ==> (#[trigger] res.1@[d]).0
                            == self.info.delegates@[d] && res.1@[d].1 as int == influence_spec(
                            self.info,
                            d,
                        )
                },
                Err(ComputeError::Validation) => !snapshot_resolves(self.info),
                Err(ComputeError::MalformedAssignment) => snapshot_resolves(self.info)
                    && !substochastic(matrix_spec(self.info), node_count(self.info)),
                Err(ComputeError::NonConvergence) => snapshot_resolves(self.info)
                    && substochastic(matrix_spec(self.info), node_count(self.info))
                    && !converged_spec(self.info),
            },
    {
        let m = match self.create_matrix() {
            Ok(m) => m,
            Err(e) => {
                return Err(e);
            },
        };
        let dd = self.info.delegates.len();
        let pp = self.info.policies.len();
        let n = m.dim();
        let ghost s = self.info;
        let (power, cumulative) = solve(&m, n, ITERATION);
        let mut i: usize = 0;
        while i < dd
            invariant
                i <= dd,
                power.wf(),
                power@.len() == n,
                dd <= n,
                power@ == power_spec(matrix_spec(s), node_count(s), ITERATION as nat),
                dd == s.delegates@.len(),
                s == self.info,
                snapshot_resolves(s),
                substochastic(matrix_spec(s), node_count(s)),
                forall|y: int, x: int|
                    #![trigger power@[y][x]]
                    0 <= y < i && 0 <= x < dd ==> power@[y][x] == 0,
            decreases dd - i,
        {
            let mut j: usize = 0;
            while j < dd
                invariant
                    j <= dd,
                    i < dd,
                    power.wf(),
                    power@.len() == n,
                    dd <= n,
                    power@ == power_spec(matrix_spec(s), node_count(s), ITERATION as nat),
                    dd == s.delegates@.len(),
                    s == self.info,
                    snapshot_resolves(s),
                    substochastic(matrix_spec(s), node_count(s)),
                    forall|x: int| 0 <= x < j ==> #[trigger] power@[i as int][x] == 0,
                decreases dd - j,
            {
                if power.entry(i, j) != 0 {
                    proof {
                        assert(!converged_spec(s));
                    }
                    return Err(ComputeError::NonConvergence);
                }
                j += 1;
            }
            i += 1;
        }
        proof {
            assert(converged_spec(s));
        }
        let mut outcome: Vec<(NodeId, u64)> = Vec::new();
        let mut p: usize = 0;
        while p < pp
            invariant
                p <= pp,
                power.wf(),
                power@.len() == n,
                n == dd + pp,
                dd == s.delegates@.len(),
                pp == s.policies@.len(),
                s == self.info,
                entries_at_most(power@, n as nat, SCALE as int),
                power@ == power_spec(matrix_spec(s), node_count(s), ITERATION as nat),
                dd <= MAX_DELEGATES,
                outcome@.len() == p,
                forall|q: int|
                    0 <= q < p ==> (#[trigger] outcome@[q]).0 == s.policies@[q]
                        && outcome@[q].1 as int == outcome_spec(s, q),
            decreases pp - p,
        {
            proof {
                lemma_mul_inequality(dd as int, MAX_DELEGATES as int, SCALE as int);
            }
            let v = row_sum(&power, dd + p, dd, SCALE);
            outcome.push((self.info.policies[p], v));
            p += 1;
        }
        let bound: u64 = (ITERATION as u64 + 1) * SCALE;
        let mut influence: Vec<(NodeId, u64)> = Vec::new();
        let mut d: usize = 0;
        while d < dd
            invariant
                d <= dd,
                cumulative.wf(),
                cumulative@.len() == n,
                n == dd + pp,
                dd == s.delegates@.len(),
                pp == s.policies@.len(),
                s == self.info,
                bound == (ITERATION as int + 1) * (SCALE as int),
                forall|y: int, x: int|
                    0 <= y < n && 0 <= x < n ==> #[trigger] cumulative@[y][x] <= bound,
                forall|y: int| 0 <= y < n ==> #[trigger] cumulative@[y][y] >= SCALE,
                cumulative@ == cumulative_spec(matrix_spec(s), node_count(s), ITERATION as nat),
                dd <= MAX_DELEGATES,
                influence@.len() == d,
                forall|c: int|
                    0 <= c < d ==> (#[trigger] influence@[c]).0 == s.delegates@[c]
                        && influence@[c].1 as int == influence_spec(s, c),
            decreases dd - d,
        {
            proof {
                lemma_mul_inequality(dd as int, MAX_DELEGATES as int, bound as int);
                assert(entries_at_most(cumulative@, n as nat, bound as int));
            }
            let num = row_sum(&cumulative, d, dd, bound);
            let diag = cumulative.entry(d, d);
            let wide: u128 = (num as u128) * (SCALE as u128);
            let val_wide: u128 = wide / (diag as u128);
            proof {
                let numi = num as int;
                let si = SCALE as int;
                let di = diag as int;
                lemma_div_multiples_vanish(numi, si);
                lemma_div_is_ordered_by_denominator(numi * si, si, di);
                assert(val_wide == (numi * si) / di);
                assert(val_wide <= numi);
            }
            let val: u64 = val_wide as u64;
            influence.push((self.info.delegates[d], val));
            d += 1;
        }
        Ok((outcome, influence))
    }
}

/// Influence monotonicity: between two delegates with equal self-revisit
/// counts, one receiving at least one self-revisit unit more total expected
/// weight has the strictly greater influence ratio. The ratios are compared
/// as `influence_spec` computes them: numerator `row_sum_prefix(cum, d, dd)`
/// scaled by `SCALE`, divided by the diagonal self-revisit count.
pub proof fn lemma_influence_monotonic(cum: Seq<Seq<u64>>, dd: int, d1: int, d2: int)
    requires
        0 <= d1 < dd,
        0 <= d2 < dd,
        cum[d1][d1] == cum[d2][d2],
        cum[d1][d1] >= SCALE,
        (row_sum_prefix(cum, d1, dd) - row_sum_prefix(cum, d2, dd)) * (SCALE as int) >= cum[d1][d1],
    ensures
        (row_sum_prefix(cum, d1, dd) * SCALE) / (cum[d1][d1] as int) > (row_sum_prefix(cum, d2, dd)
            * SCALE) / (cum[d2][d2] as int),
{
    let r1 = row_sum_prefix(cum, d1, dd);
    let r2 = row_sum_prefix(cum, d2, dd);
    let si = SCALE as int;
    let di = cum[d1][d1] as int;
    assert(r1 * si >= r2 * si + di);
    lemma_div_plus_one(r2 * si, di);
    lemma_div_is_ordered(r2 * si + di, r1 * si, di);
}

/// Influence never decreases as received weight grows: with equal
/// self-revisit counts, at least as much total expected weight gives at
/// least as great an influence ratio.
pub proof fn lemma_influence_monotonic_weak(cum: Seq<Seq<u64>>, dd: int, d1: int, d2: int)
    requires
        0 <= d1 < dd,
        0 <= d2 < dd,
        cum[d1][d1] == cum[d2][d2],
        cum[d1][d1] >= SCALE,
        row_sum_prefix(cum, d1, dd) >= row_sum_prefix(cum, d2, dd),
    ensures
        (row_sum_prefix(cum, d1, dd) * SCALE) / (cum[d1][d1] as int) >= (row_sum_prefix(
            cum,
            d2,
            dd,
        ) * SCALE) / (cum[d2][d2] as int),
{
    let r1 = row_sum_prefix(cum, d1, dd);
    let r2 = row_sum_prefix(cum, d2, dd);
    let si = SCALE as int;
    let di = cum[d1][d1] as int;
    lemma_div_is_ordered(r2 * si, r1 * si, di);
}

/// Influence monotonicity stated over the snapshot's own scores: between
/// two delegates with equal self-revisit counts, one receiving at least one
/// self-revisit unit more total expected weight has the strictly greater
/// influence score.
pub proof fn lemma_influence_spec_monotonic(s: VoteData, d1: int, d2: int)
    requires
        0 <= d1 < s.delegates@.len(),
        0 <= d2 < s.delegates@.len(),
        cumulative_spec(matrix_spec(s), node_count(s), ITERATION as nat)[d1][d1]
            == cumulative_spec(matrix_spec(s), node_count(s), ITERATION as nat)[d2][d2],
        cumulative_spec(matrix_spec(s), node_count(s), ITERATION as nat)[d1][d1] >= SCALE,
        (row_sum_prefix(
            cumulative_spec(matrix_spec(s), node_count(s), ITERATION as nat),
            d1,
            s.delegates@.len() as int,
        ) - row_sum_prefix(
            cumulative_spec(matrix_spec(s), node_count(s), ITERATION as nat),
            d2,
            s.delegates@.len() as int,
        )) * (SCALE as int) >= cumulative_spec(matrix_spec(s), node_count(s), ITERATION as nat)[d1][d1],
    ensures
        influence_spec(s, d1) > influence_spec(s, d2),
{
    let cum = cumulative_spec(matrix_spec(s), node_count(s), ITERATION as nat);
    lemma_influence_monotonic(cum, s.delegates@.len() as int, d1, d2);
}

/// Idempotence: the computation is a pure function of the snapshot. Two
/// snapshots with equal delegate lists, policy lists and assignments induce
/// the same matrix, the same validity and convergence verdicts, and the
/// same outcome and influence scores.
pub proof fn lemma_calculate_deterministic(s1: VoteData, s2: VoteData)
    requires
        s1.wf(),
        s2.wf(),
        s1.delegates@ == s2.delegates@,
        s1.policies@ == s2.policies@,
        s1.votes@.len() == s2.votes@.len(),
        forall|x: int| 0 <= x < s1.votes@.len() ==> (#[trigger] s1.votes@[x])@ == s2.votes@[x]@,
    ensures
        matrix_spec(s1) == matrix_spec(s2),
        snapshot_resolves(s1) == snapshot_resolves(s2),
        converged_spec(s1) == converged_spec(s2),
        forall|p: int| #[trigger] outcome_spec(s1, p) == outcome_spec(s2, p),
        forall|d: int| #[trigger] influence_spec(s1, d) == influence_spec(s2, d),
{
    assert(matrix_spec(s1) =~~= matrix_spec(s2));
    assert(node_count(s1) == node_count(s2));
    if snapshot_resolves(s1) {
        assert forall|x: int| 0 <= x < s2.delegates@.len() implies votes_valid(
            (#[trigger] s2.votes@[x])@,
            s2.delegates@,
            s2.policies@,
        ) by {
            assert(votes_valid(s1.votes@[x]@, s1.delegates@, s1.policies@));
        }
    }
    if snapshot_resolves(s2) {
        assert forall|x: int| 0 <= x < s1.delegates@.len() implies votes_valid(
            (#[trigger] s1.votes@[x])@,
            s1.delegates@,
            s1.policies@,
        ) by {
            assert(votes_valid(s2.votes@[x]@, s2.delegates@, s2.policies@));
        }
    }
}

} // verus!
