//! Outcome and influence scores for a liquid-democracy vote-delegation graph.
//!
//! Each delegate splits a unit of voting weight among other delegates and
//! final policy options; delegated weight is re-propagated by the receivers'
//! own allocations. The engine assembles a transition matrix over the unified
//! node set, iteratively powers it to approximate the absorbing process, and
//! extracts a per-policy outcome score and a per-delegate influence score.
//!
//! All weights and scores are fixed-point values scaled by
//! [`matrix::SCALE`]: a weight of `SCALE` stands for one full unit.

pub mod matrix;
pub mod liquid_democracy;
pub mod solver;
pub mod vote_data;

use vstd::prelude::*;
use crate::liquid_democracy::{
    converged_spec, influence_spec, matrix_spec, node_count, outcome_spec, snapshot_resolves,
    ComputeError, LDResult, LiquidDemocracy, MAX_DELEGATES,
};
use crate::matrix::substochastic;
use crate::vote_data::VoteData;

verus! {

/// Computes both score maps of one snapshot: the per-policy outcome scores
/// and the per-delegate influence ratios, each keyed by id in input order.
pub fn calculate(info: VoteData) -> (r: Result<LDResult, ComputeError>)
    requires
        info.wf(),
        node_count(info) <= usize::MAX,
        info.delegates@.len() <= MAX_DELEGATES,
    ensures
        match r {
            Ok(res) => {
                &&& snapshot_resolves(info)
                &&& substochastic(matrix_spec(info), node_count(info))
                &&& converged_spec(info)
                &&& res.0@.len() == info.policies@.len()
                &&& forall|p: int|
                    0 <= p < info.policies@.len() ==> (#[trigger] res.0@[p]).0 == info.policies@[p]
                        && res.0@[p].1 as int == outcome_spec(info, p)
                &&& res.1@.len() == info.delegates@.len()
                &&& forall|d: int|
                    0 <= d < info.delegates@.len() ==> (#[trigger] res.1@[d]).0
                        == info.delegates@[d] && res.1@[d].1 as int == influence_spec(info, d)
            },
            Err(ComputeError::Validation) => !snapshot_resolves(info),
            Err(ComputeError::MalformedAssignment) => snapshot_resolves(info) && !substochastic(
                matrix_spec(info),
                node_count(info),
            ),
            Err(ComputeError::NonConvergence) => snapshot_resolves(info) && substochastic(
                matrix_spec(info),
                node_count(info),
            ) && !converged_spec(info),
        },
{
    let liq = LiquidDemocracy::new(info);
    liq.calculate()
}

} // verus!
