//! Metric vectors: fixed-width tuples of non-negative integers per edge, their
//! weighted sums, and tolerance-aware comparison.

use vstd::prelude::*;

verus! {

/// Largest number of metrics an edge can carry.
pub const METRIC_CAPACITY: usize = 16;

/// Largest value of a single weighted term `alpha * metric`.
pub const TERM_MAX: u128 = 0xFFFF_FFFE_0000_0001;

/// How the metric of a shortcut is obtained from the metrics of its two children.
#[derive(Clone, Copy, Debug, PartialEq, Eq, Structural)]
pub enum Combine {
    /// The shortcut carries the sum of its children (length, duration, workload).
    Sum,
    /// The shortcut carries the larger of its children's values.
    Max,
}

/// The value a shortcut must carry for a metric whose children carry `a` and `b`.
pub open spec fn combined(c: Combine, a: int, b: int) -> int {
    match c {
        Combine::Sum => a + b,
        Combine::Max => if a >= b { a } else { b },
    }
}

/// `|a - b| <= tol`
pub open spec fn within(a: int, b: int, tol: int) -> bool {
    a - b <= tol && b - a <= tol
}

/// Weighted sum of the first `n` entries of `metrics` under `alphas`.
pub open spec fn weighted_prefix(alphas: Seq<u32>, metrics: Seq<u32>, n: int) -> int
    decreases n,
{
    if n <= 0 {
        0
    } else {
        weighted_prefix(alphas, metrics, n - 1) + alphas[n - 1] * metrics[n - 1]
    }
}

/// The scalar cost `sum_m alphas[m] * metrics[m]` of a metric vector.
pub open spec fn weighted(alphas: Seq<u32>, metrics: Seq<u32>) -> int {
    weighted_prefix(alphas, metrics, metrics.len() as int)
}

/// Each weighted term is below `TERM_MAX`, so a prefix of `n` terms is below `n * TERM_MAX`.
pub proof fn lemma_weighted_prefix_bounds(alphas: Seq<u32>, metrics: Seq<u32>, n: int)
    requires
        0 <= n <= metrics.len(),
        metrics.len() <= alphas.len(),
    ensures
        0 <= weighted_prefix(alphas, metrics, n) <= n * TERM_MAX,
    decreases n,
{
    if n > 0 {
        lemma_weighted_prefix_bounds(alphas, metrics, n - 1);
        let a = alphas[n - 1] as int;
        let m = metrics[n - 1] as int;
        assert(0 <= a * m <= 0xFFFF_FFFF * 0xFFFF_FFFF) by (nonlinear_arith)
            requires 0 <= a <= 0xFFFF_FFFF, 0 <= m <= 0xFFFF_FFFF;
    }
}

/// Scalar cost of one metric vector under the weights `alphas`.
pub fn scalarize(alphas: &Vec<u32>, metrics: &Vec<u32>) -> (r: u128)
    requires
        alphas.len() == metrics.len(),
        metrics.len() <= METRIC_CAPACITY,
    ensures
        r == weighted(alphas@, metrics@),
        r <= METRIC_CAPACITY * TERM_MAX,
{
    let mut sum: u128 = 0;
    let mut i: usize = 0;
    while i < metrics.len()
        invariant
            i <= metrics.len(),
            alphas.len() == metrics.len(),
            metrics.len() <= METRIC_CAPACITY,
            sum == weighted_prefix(alphas@, metrics@, i as int),
        decreases metrics.len() - i,
    {
        proof {
            lemma_weighted_prefix_bounds(alphas@, metrics@, i as int + 1);
        }
        sum = sum + (alphas[i] as u128) * (metrics[i] as u128);
        i = i + 1;
    }
    proof {
        lemma_weighted_prefix_bounds(alphas@, metrics@, metrics.len() as int);
    }
    sum
}

/// Whether two metric values agree up to the absolute tolerance `tol`.
pub fn approx_eq(a: u64, b: u64, tol: u64) -> (r: bool)
    ensures
        r == within(a as int, b as int, tol as int),
{
    if a >= b {
        a - b <= tol
    } else {
        b - a <= tol
    }
}

/// Value a shortcut must carry for a metric combined by `c` from children `a` and `b`.
pub fn combine_values(c: Combine, a: u32, b: u32) -> (r: u64)
    ensures
        r == combined(c, a as int, b as int),
{
    match c {
        Combine::Sum => a as u64 + b as u64,
        Combine::Max => if a >= b { a as u64 } else { b as u64 },
    }
}

} // verus!
