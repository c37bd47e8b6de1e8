//! Absorption solver: iteratively powers the transition matrix.
//!
//! Starting from the identity, the solver repeats `power ← power · M` and
//! `cumulative ← cumulative + power`. Policy rows are absorbing, so the
//! repeated multiplication drains weight from the delegate sub-block into
//! the policy rows: `power`'s delegate-to-policy block approaches the
//! absorption distribution, and `cumulative`'s delegate block approaches
//! the fundamental matrix of the induced absorbing process.

use vstd::prelude::*;
use crate::matrix::{
    add_spec, entries_at_most, identity, identity_spec, mat_add, mat_mul, mul_spec, substochastic,
    Matrix, SCALE,
};

verus! {

/// The `k`-th fixed-point power of `m`: `identity` for `k == 0`, then
/// `power(k - 1) · m`.
pub open spec fn power_spec(m: Seq<Seq<u64>>, n: nat, k: nat) -> Seq<Seq<u64>>
    decreases k,
{
    if k == 0 {
        identity_spec(n)
    } else {
        mul_spec(power_spec(m, n, (k - 1) as nat), m, n)
    }
}

/// The sum `identity + m¹ + … + mᵏ` of the first `k` fixed-point powers.
pub open spec fn cumulative_spec(m: Seq<Seq<u64>>, n: nat, k: nat) -> Seq<Seq<u64>>
    decreases k,
{
    if k == 0 {
        identity_spec(n)
    } else {
        add_spec(cumulative_spec(m, n, (k - 1) as nat), power_spec(m, n, k), n)
    }
}

/// Runs `k` absorption steps on the substochastic transition matrix `m` and
/// returns `(power, cumulative)`: the `k`-th power of `m` and the sum of
/// powers `0` through `k`.
pub fn solve(m: &Matrix, n: usize, k: u32) -> (r: (Matrix, Matrix))
    requires
        m.wf(),
        m@.len() == n,
        substochastic(m@, n as nat),
    ensures
        r.0.wf(),
        r.1.wf(),
        r.0@.len() == n,
        r.1@.len() == n,
        r.0@ == power_spec(m@, n as nat, k as nat),
        r.1@ == cumulative_spec(m@, n as nat, k as nat),
        entries_at_most(r.0@, n as nat, SCALE as int),
        forall|i: int, j: int|
            0 <= i < n && 0 <= j < n ==> #[trigger] r.1@[i][j] <= (k as int + 1) * (SCALE as int),
        forall|i: int| 0 <= i < n ==> #[trigger] r.1@[i][i] >= SCALE,
{
    let mut power: Matrix = identity(n);
    let mut cumulative: Matrix = identity(n);
    let mut step: u32 = 0;
    proof {
        assert(entries_at_most(power@, n as nat, SCALE as int));
        assert(forall|i: int, j: int|
            0 <= i < n && 0 <= j < n ==> #[trigger] cumulative@[i][j] <= SCALE);
        assert(forall|i: int| 0 <= i < n ==> #[trigger] cumulative@[i][i] >= SCALE);
    }
    while step < k
        invariant
            step <= k,
            m.wf(),
            m@.len() == n,
            substochastic(m@, n as nat),
            power.wf(),
            cumulative.wf(),
            power@.len() == n,
            cumulative@.len() == n,
            power@ == power_spec(m@, n as nat, step as nat),
            cumulative@ == cumulative_spec(m@, n as nat, step as nat),
            entries_at_most(power@, n as nat, SCALE as int),
            forall|i: int, j: int|
                0 <= i < n && 0 <= j < n ==> #[trigger] cumulative@[i][j] <= (step as int + 1) * (
                SCALE as int),
            forall|i: int| 0 <= i < n ==> #[trigger] cumulative@[i][i] >= SCALE,
        decreases k - step,
    {
        let next_power = mat_mul(&power, m, n);
        proof {
            assert(next_power@ == power_spec(m@, n as nat, (step + 1) as nat));
            assert forall|i: int, j: int| 0 <= i < n && 0 <= j < n implies cumulative@[i][j] + (
            #[trigger] next_power@[i][j]) <= u64::MAX by {
                assert(cumulative@[i][j] <= (step as int + 1) * (SCALE as int));
                assert(next_power@[i][j] <= SCALE);
            }
        }
        let next_cumulative = mat_add(&cumulative, &next_power, n);
        proof {
            assert(next_cumulative@ == cumulative_spec(m@, n as nat, (step + 1) as nat));
            assert forall|i: int, j: int| 0 <= i < n && 0 <= j < n implies #[trigger] next_cumulative@[i][j]
                <= (step as int + 2) * (SCALE as int) by {
                assert(next_cumulative@[i][j] as int == cumulative@[i][j] + next_power@[i][j]);
            }
            assert forall|i: int| 0 <= i < n implies #[trigger] next_cumulative@[i][i] >= SCALE by {
                assert(next_cumulative@[i][i] as int == cumulative@[i][i] + next_power@[i][i]);
            }
        }
        power = next_power;
        cumulative = next_cumulative;
        step += 1;
    }
    (power, cumulative)
}

} // verus!
