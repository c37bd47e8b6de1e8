//! Square fixed-point transition matrices and their arithmetic.
//!
//! Entries are weights scaled by [`SCALE`]; column `j` of a matrix holds the
//! weight flowing from source node `j` to each target row in one delegation
//! step. A column never emits more than one unit in total, which bounds every
//! intermediate value of the solver.

use vstd::prelude::*;
use vstd::arithmetic::div_mod::{lemma_div_is_ordered, lemma_div_pos_is_pos};
use vstd::arithmetic::mul::{lemma_mul_inequality, lemma_mul_upper_bound};
use vstd::arithmetic::div_mod::lemma_div_multiples_vanish;

verus! {

/// Fixed-point scale: a weight of `SCALE` stands for one full unit of
/// voting weight.
pub const SCALE: u64 = 1_000_000;

/// A square matrix of fixed-point weights, stored column by column:
/// `cols[j][i]` is the entry in row `i`, column `j`.
pub struct Matrix {
    /// The columns; when well formed, each has length `cols.len()`.
    pub cols: Vec<Vec<u64>>,
}

impl View for Matrix {
    type V = Seq<Seq<u64>>;

    /// Mathematical value: the sequence of rows, so `self@[i][j]` is the
    /// entry in row `i`, column `j`.
    open spec fn view(&self) -> Seq<Seq<u64>> {
        Seq::new(
            self.cols@.len(),
            |i: int| Seq::new(self.cols@.len(), |j: int| self.cols@[j]@[i]),
        )
    }
}

impl Matrix {
    /// Every stored column has the matrix's dimension.
    pub open spec fn wf(&self) -> bool {
        forall|j: int|
            0 <= j < self.cols@.len() ==> (#[trigger] self.cols@[j])@.len() == self.cols@.len()
    }

    /// The dimension (number of rows and of columns).
    pub fn dim(&self) -> (r: usize)
        ensures
            r == self@.len(),
    {
        self.cols.len()
    }

    /// The entry in row `i`, column `j`.
    pub fn entry(&self, i: usize, j: usize) -> (r: u64)
        requires
            self.wf(),
            i < self@.len(),
            j < self@.len(),
        ensures
            r == self@[i as int][j as int],
    {
        self.cols[j][i]
    }
}

/// The matrix is square with dimension `n`.
pub open spec fn is_square(m: Seq<Seq<u64>>, n: nat) -> bool {
    m.len() == n && forall|i: int| 0 <= i < n ==> (#[trigger] m[i]).len() == n
}

/// Fixed-point product of two scaled weights, truncating toward zero.
pub open spec fn fp_mul(a: int, b: int) -> int {
    (a * b) / (SCALE as int)
}

/// Prefix of the fixed-point dot product of row `i` of `a` with column `j`
/// of `b`: the sum of `fp_mul(a[i][t], b[t][j])` over `t < k`.
pub open spec fn dot_prefix(a: Seq<Seq<u64>>, b: Seq<Seq<u64>>, i: int, j: int, k: int) -> int
    decreases k,
{
    if k <= 0 {
        0
    } else {
        dot_prefix(a, b, i, j, k - 1) + fp_mul(a[i][k - 1] as int, b[k - 1][j] as int)
    }
}

/// Prefix of column `j`'s sum: the sum of `m[t][j]` over `t < k`.
pub open spec fn col_sum_prefix(m: Seq<Seq<u64>>, j: int, k: int) -> int
    decreases k,
{
    if k <= 0 {
        0
    } else {
        col_sum_prefix(m, j, k - 1) + m[k - 1][j]
    }
}

/// Prefix of row `i`'s sum: the sum of `m[i][t]` over `t < k`.
pub open spec fn row_sum_prefix(m: Seq<Seq<u64>>, i: int, k: int) -> int
    decreases k,
{
    if k <= 0 {
        0
    } else {
        row_sum_prefix(m, i, k - 1) + m[i][k - 1]
    }
}

/// Every column sums to at most `SCALE`: no source emits more than one unit
/// of weight per step.
pub open spec fn substochastic(m: Seq<Seq<u64>>, n: nat) -> bool {
    forall|j: int| 0 <= j < n ==> col_sum_prefix(m, j, n as int) <= SCALE
}

/// Every entry of the `n`-dimensional matrix is at most `b`.
pub open spec fn entries_at_most(m: Seq<Seq<u64>>, n: nat, b: int) -> bool {
    forall|i: int, j: int| 0 <= i < n && 0 <= j < n ==> #[trigger] m[i][j] <= b
}

/// The identity over the unified node set: `SCALE` on the diagonal, zero
/// elsewhere.
pub open spec fn identity_spec(n: nat) -> Seq<Seq<u64>> {
    Seq::new(n, |i: int| Seq::new(n, |j: int| if i == j { SCALE } else { 0u64 }))
}

/// The fixed-point matrix product of `a` and `b`.
pub open spec fn mul_spec(a: Seq<Seq<u64>>, b: Seq<Seq<u64>>, n: nat) -> Seq<Seq<u64>> {
    Seq::new(n, |i: int| Seq::new(n, |j: int| dot_prefix(a, b, i, j, n as int) as u64))
}

/// The entrywise sum of `a` and `b`.
pub open spec fn add_spec(a: Seq<Seq<u64>>, b: Seq<Seq<u64>>, n: nat) -> Seq<Seq<u64>> {
    Seq::new(n, |i: int| Seq::new(n, |j: int| (a[i][j] + b[i][j]) as u64))
}

/// A column-sum prefix only grows as the prefix lengthens.
pub proof fn lemma_col_sum_prefix_mono(m: Seq<Seq<u64>>, j: int, k1: int, k2: int)
    requires
        0 <= k1 <= k2,
    ensures
        0 <= col_sum_prefix(m, j, k1) <= col_sum_prefix(m, j, k2),
    decreases k2,
{
    if k2 > k1 {
        lemma_col_sum_prefix_mono(m, j, k1, k2 - 1);
    } else if k1 > 0 {
        lemma_col_sum_prefix_mono(m, j, k1 - 1, k2 - 1);
    }
}

/// Each entry of a column is bounded by any column-sum prefix that covers it.
pub proof fn lemma_entry_le_col_sum(m: Seq<Seq<u64>>, i: int, j: int, k: int)
    requires
        0 <= i < k,
    ensures
        m[i][j] <= col_sum_prefix(m, j, k),
    decreases k,
{
    if i == k - 1 {
        lemma_col_sum_prefix_mono(m, j, 0, k - 1);
    } else {
        lemma_entry_le_col_sum(m, i, j, k - 1);
    }
}

/// Entries of a substochastic matrix never exceed `SCALE`.
pub proof fn lemma_substochastic_entries(m: Seq<Seq<u64>>, n: nat)
    requires
        substochastic(m, n),
    ensures
        entries_at_most(m, n, SCALE as int),
{
    assert forall|i: int, j: int| 0 <= i < n && 0 <= j < n implies #[trigger] m[i][j]
        <= SCALE as int by {
        lemma_entry_le_col_sum(m, i, j, n as int);
    }
}

/// When one factor is at most `SCALE`, the truncating fixed-point product
/// is at most the other factor.
pub proof fn lemma_fp_mul_le(a: int, b: int)
    requires
        0 <= a <= SCALE,
        0 <= b,
    ensures
        0 <= fp_mul(a, b) <= b,
{
    let s = SCALE as int;
    lemma_mul_inequality(a, s, b);
    lemma_div_is_ordered(a * b, s * b, s);
    lemma_div_pos_is_pos(a * b, s);
    lemma_div_multiples_vanish(b, s);
}

/// A dot-product prefix against a matrix with entries at most `SCALE` never
/// exceeds the matching column-sum prefix of the other factor.
pub proof fn lemma_dot_le_col_sum(a: Seq<Seq<u64>>, b: Seq<Seq<u64>>, n: nat, i: int, j: int, k: int)
    requires
        0 <= i < n,
        0 <= j < n,
        0 <= k <= n,
        entries_at_most(a, n, SCALE as int),
    ensures
        0 <= dot_prefix(a, b, i, j, k) <= col_sum_prefix(b, j, k),
    decreases k,
{
    if k > 0 {
        lemma_dot_le_col_sum(a, b, n, i, j, k - 1);
        lemma_fp_mul_le(a[i][k - 1] as int, b[k - 1][j] as int);
    }
}

/// Builds the `n`-dimensional identity matrix: one unit of weight held in
/// place at every node.
pub fn identity(n: usize) -> (r: Matrix)
    ensures
        r.wf(),
        r@ == identity_spec(n as nat),
        r@.len() == n,
{
    let mut cols: Vec<Vec<u64>> = Vec::new();
    let mut j: usize = 0;
    while j < n
        invariant
            j <= n,
            cols@.len() == j,
            forall|x: int| 0 <= x < j ==> (#[trigger] cols@[x])@.len() == n,
            forall|x: int, y: int|
                0 <= x < j && 0 <= y < n ==> (#[trigger] cols@[x]@[y]) == if x == y {
                    SCALE
                } else {
                    0u64
                },
        decreases n - j,
    {
        let mut col: Vec<u64> = Vec::new();
        let mut i: usize = 0;
        while i < n
            invariant
                i <= n,
                col@.len() == i,
                forall|y: int| 0 <= y < i ==> (#[trigger] col@[y]) == if y == j { SCALE } else { 0u64 },
        decreases n - i,
        {
            if i == j {
                col.push(SCALE);
            } else {
                col.push(0);
            }
            i += 1;
        }
        cols.push(col);
        j += 1;
    }
    let r = Matrix { cols };
    proof {
        assert(r@ =~~= identity_spec(n as nat));
    }
    r
}

/// Fixed-point matrix product `a · b`. With `b` substochastic, every entry
/// of the product is again at most `SCALE`.
pub fn mat_mul(a: &Matrix, b: &Matrix, n: usize) -> (r: Matrix)
    requires
        a.wf(),
        b.wf(),
        a@.len() == n,
        b@.len() == n,
        entries_at_most(a@, n as nat, SCALE as int),
        substochastic(b@, n as nat),
    ensures
        r.wf(),
        r@ == mul_spec(a@, b@, n as nat),
        r@.len() == n,
        entries_at_most(r@, n as nat, SCALE as int),
{
    proof {
        lemma_substochastic_entries(b@, n as nat);
    }
    let mut cols: Vec<Vec<u64>> = Vec::new();
    let mut j: usize = 0;
    while j < n
        invariant
            j <= n,
            a.wf(),
            b.wf(),
            a@.len() == n,
            b@.len() == n,
            entries_at_most(a@, n as nat, SCALE as int),
            entries_at_most(b@, n as nat, SCALE as int),
            substochastic(b@, n as nat),
            cols@.len() == j,
            forall|x: int| 0 <= x < j ==> (#[trigger] cols@[x])@.len() == n,
            forall|x: int, y: int|
                0 <= x < j && 0 <= y < n ==> (#[trigger] cols@[x]@[y]) as int == dot_prefix(
                    a@,
                    b@,
                    y,
                    x,
                    n as int,
                ) && cols@[x]@[y] <= SCALE,
        decreases n - j,
    {
        let mut col: Vec<u64> = Vec::new();
        let mut i: usize = 0;
        while i < n
            invariant
                i <= n,
                j < n,
                a.wf(),
                b.wf(),
                a@.len() == n,
                b@.len() == n,
                entries_at_most(a@, n as nat, SCALE as int),
                entries_at_most(b@, n as nat, SCALE as int),
                substochastic(b@, n as nat),
                col@.len() == i,
                forall|y: int|
                    0 <= y < i ==> (#[trigger] col@[y]) as int == dot_prefix(a@, b@, y, j as int, n as int)
                        && col@[y] <= SCALE,
            decreases n - i,
        {
            let mut acc: u64 = 0;
            let mut k: usize = 0;
            while k < n
                invariant
                    k <= n,
                    i < n,
                    j < n,
                    a.wf(),
                    b.wf(),
                    a@.len() == n,
                    b@.len() == n,
                    entries_at_most(a@, n as nat, SCALE as int),
                    entries_at_most(b@, n as nat, SCALE as int),
                    substochastic(b@, n as nat),
                    acc as int == dot_prefix(a@, b@, i as int, j as int, k as int),
                    acc <= SCALE,
                decreases n - k,
            {
                let av: u64 = a.cols[k][i];
                let bv: u64 = b.cols[j][k];
                proof {
                    assert(av == a@[i as int][k as int]);
                    assert(bv == b@[k as int][j as int]);
                    lemma_mul_upper_bound(av as int, SCALE as int, bv as int, SCALE as int);
                    lemma_dot_le_col_sum(a@, b@, n as nat, i as int, j as int, k as int + 1);
                    lemma_col_sum_prefix_mono(b@, j as int, k as int + 1, n as int);
                    lemma_fp_mul_le(av as int, bv as int);
                }
                let prod: u64 = av * bv;
                let term: u64 = prod / SCALE;
                acc = acc + term;
                k += 1;
            }
            col.push(acc);
            i += 1;
        }
        cols.push(col);
        j += 1;
    }
    let r = Matrix { cols };
    proof {
        assert forall|i: int, j2: int| 0 <= i < n && 0 <= j2 < n implies 0 <= #[trigger] dot_prefix(
            a@,
            b@,
            i,
            j2,
            n as int,
        ) <= SCALE as int by {
            lemma_dot_le_col_sum(a@, b@, n as nat, i, j2, n as int);
        }
        assert(r@ =~~= mul_spec(a@, b@, n as nat));
    }
    r
}

/// Entrywise sum `a + b` of two matrices whose entries fit a `u64` when
/// added.
pub fn mat_add(a: &Matrix, b: &Matrix, n: usize) -> (r: Matrix)
    requires
        a.wf(),
        b.wf(),
        a@.len() == n,
        b@.len() == n,
        forall|i: int, j: int|
            0 <= i < n && 0 <= j < n ==> a@[i][j] + (#[trigger] b@[i][j]) <= u64::MAX,
    ensures
        r.wf(),
        r@ == add_spec(a@, b@, n as nat),
        r@.len() == n,
{
    let mut cols: Vec<Vec<u64>> = Vec::new();
    let mut j: usize = 0;
    while j < n
        invariant
            j <= n,
            a.wf(),
            b.wf(),
            a@.len() == n,
            b@.len() == n,
            forall|i2: int, j2: int|
                0 <= i2 < n && 0 <= j2 < n ==> a@[i2][j2] + (#[trigger] b@[i2][j2]) <= u64::MAX,
            cols@.len() == j,
            forall|x: int| 0 <= x < j ==> (#[trigger] cols@[x])@.len() == n,
            forall|x: int, y: int|
                0 <= x < j && 0 <= y < n ==> (#[trigger] cols@[x]@[y]) as int == a@[y][x] + b@[y][x],
        decreases n - j,
    {
        let mut col: Vec<u64> = Vec::new();
        let mut i: usize = 0;
        while i < n
            invariant
                i <= n,
                j < n,
                a.wf(),
                b.wf(),
                a@.len() == n,
                b@.len() == n,
                forall|i2: int, j2: int|
                    0 <= i2 < n && 0 <= j2 < n ==> a@[i2][j2] + (#[trigger] b@[i2][j2]) <= u64::MAX,
                col@.len() == i,
                forall|y: int|
                    0 <= y < i ==> (#[trigger] col@[y]) as int == a@[y][j as int] + b@[y][j as int],
            decreases n - i,
        {
            let av: u64 = a.cols[j][i];
            let bv: u64 = b.cols[j][i];
            proof {
                assert(av == a@[i as int][j as int]);
                assert(bv == b@[i as int][j as int]);
            }
            col.push(av + bv);
            i += 1;
        }
        cols.push(col);
        j += 1;
    }
    let r = Matrix { cols };
    proof {
        assert(r@ =~~= add_spec(a@, b@, n as nat));
    }
    r
}

} // verus!
