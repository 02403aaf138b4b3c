//! Transfer-entropy estimator settings and the statistics of the causal
//! pipeline.

use vstd::prelude::*;

verus! {

/// Transfer entropy computation strategy.
#[derive(Clone, Copy, Debug, PartialEq, Eq, Structural)]
pub enum TeStrategy {
    /// Edge layer: Gaussian, linear time.
    Screening,
    /// Rare layer: symbolic, `n log n`.
    DeepProbe,
    /// Sleep mode: KSG, quadratic in the series length.
    Validation,
}

/// Gaussian transfer entropy estimator, the fast linear screen of the Edge layer.
pub struct GaussianEstimator {
    /// Time lag.
    pub lag: usize,
    /// Minimum number of samples required.
    pub min_samples: usize,
}

impl GaussianEstimator {
    /// An estimator with the given lag and sample minimum.
    pub fn new(lag: usize, min_samples: usize) -> (e: Self)
        ensures
            e.lag == lag,
            e.min_samples == min_samples,
    {
        GaussianEstimator { lag, min_samples }
    }

    /// The estimator's name.
    pub fn name(&self) -> (s: &'static str)
        ensures
            s@ == "Gaussian"@,
    {
        "Gaussian"
    }
}

impl Default for GaussianEstimator {
    fn default() -> (e: Self)
        ensures
            e.lag == 1,
            e.min_samples == 10,
    {
        GaussianEstimator::new(1, 10)
    }
}

/// Symbolic transfer entropy estimator over permutation patterns.
pub struct SymbolicEstimator {
    /// Embedding dimension.
    pub dim: usize,
    /// Time delay.
    pub delay: usize,
    /// Minimum number of samples required.
    pub min_samples: usize,
}

impl SymbolicEstimator {
    /// An estimator with the given embedding dimension, delay and sample minimum.
    pub fn new(dim: usize, delay: usize, min_samples: usize) -> (e: Self)
        ensures
            e.dim == dim,
            e.delay == delay,
            e.min_samples == min_samples,
    {
        SymbolicEstimator { dim, delay, min_samples }
    }

    /// The estimator's name.
    pub fn name(&self) -> (s: &'static str)
        ensures
            s@ == "Symbolic"@,
    {
        "Symbolic"
    }
}

impl Default for SymbolicEstimator {
    fn default() -> (e: Self)
        ensures
            e.dim == 3,
            e.delay == 1,
            e.min_samples == 50,
    {
        SymbolicEstimator::new(3, 1, 50)
    }
}

/// Counters of the three-stage causal pipeline.
#[derive(Clone, Debug)]
pub struct CausalKdfStats {
    /// Number of screening calls.
    pub screening_calls: usize,
    /// Number of deep probe calls.
    pub deep_probe_calls: usize,
    /// Number of validation calls.
    pub validation_calls: usize,
    /// Number of significant links found.
    pub significant_links_found: usize,
    /// Number of false positives filtered.
    pub false_positives_filtered: usize,
    /// Number of isolated truths detected.
    pub isolated_truths_detected: usize,
}

impl Default for CausalKdfStats {
    fn default() -> (s: Self)
        ensures
            s.screening_calls == 0,
            s.deep_probe_calls == 0,
            s.validation_calls == 0,
            s.significant_links_found == 0,
            s.false_positives_filtered == 0,
            s.isolated_truths_detected == 0,
    {
        CausalKdfStats {
            screening_calls: 0,
            deep_probe_calls: 0,
            validation_calls: 0,
            significant_links_found: 0,
            false_positives_filtered: 0,
            isolated_truths_detected: 0,
        }
    }
}

/// Number of positions in `i + 1 .. m` that hold an index smaller than the one at `i`.
pub open spec fn later_smaller(order: Seq<usize>, i: int, m: int) -> nat
    decreases m - i,
{
    if m <= i + 1 {
        0
    } else {
        later_smaller(order, i, m - 1) + (if order[m - 1] < order[i] {
            1nat
        } else {
            0nat
        })
    }
}

/// `n * (n - 1) * ... * (n - i + 1)`.
pub open spec fn falling(n: int, i: int) -> int
    decreases i,
{
    if i <= 0 {
        1
    } else {
        falling(n, i - 1) * (n - (i - 1))
    }
}

/// The rank of a permutation pattern over its first `i` positions: each
/// position weighs the number of later, smaller entries by the falling
/// factorial of the positions before it.
pub open spec fn pattern_rank_upto(order: Seq<usize>, i: int) -> int
    decreases i,
{
    if i <= 0 {
        0
    } else {
        pattern_rank_upto(order, i - 1) + later_smaller(order, i - 1, order.len() as int) * falling(
            order.len() as int,
            i - 1,
        )
    }
}

proof fn lemma_later_smaller_bound(order: Seq<usize>, i: int, m: int)
    requires
        0 <= i,
    ensures
        later_smaller(order, i, m) <= if m > i + 1 {
            m - i - 1
        } else {
            0
        },
    decreases m - i,
{
    if m > i + 1 {
        lemma_later_smaller_bound(order, i, m - 1);
    }
}

proof fn lemma_falling_grows(n: int, i: int, j: int)
    requires
        0 <= i <= j <= n,
    ensures
        1 <= falling(n, i) <= falling(n, j),
    decreases j - i,
{
    if i < j {
        lemma_falling_grows(n, i, j - 1);
        let f = falling(n, j - 1);
        assert(f <= f * (n - (j - 1))) by (nonlinear_arith)
            requires
                f >= 1,
                n - (j - 1) >= 1,
        ;
    } else {
        lemma_falling_positive(n, i);
    }
}

proof fn lemma_falling_positive(n: int, i: int)
    requires
        0 <= i <= n,
    ensures
        falling(n, i) >= 1,
    decreases i,
{
    if i > 0 {
        lemma_falling_positive(n, i - 1);
        let f = falling(n, i - 1);
        assert(f * (n - (i - 1)) >= 1) by (nonlinear_arith)
            requires
                f >= 1,
                n - (i - 1) >= 1,
        ;
    }
}

/// The rank of the permutation pattern given by `order`, the positions of a
/// window listed from its smallest value to its largest. An empty window has
/// rank 0.
pub fn pattern_rank(order: &Vec<usize>) -> (rank: usize)
    requires
        falling(order.len() as int, order.len() as int) <= usize::MAX,
    ensures
        rank == pattern_rank_upto(order@, order.len() as int),
        rank < falling(order.len() as int, order.len() as int),
{
    let n = order.len();
    let ghost nn = n as int;
    let mut rank: usize = 0;
    let mut factorial: usize = 1;
    let mut i: usize = 0;
    proof {
        lemma_falling_positive(nn, nn);
    }
    while i < n
        invariant
            i <= n,
            n == order.len(),
            nn == n as int,
            falling(nn, nn) <= usize::MAX,
            factorial == falling(nn, i as int),
            rank == pattern_rank_upto(order@, i as int),
            rank < falling(nn, i as int),
        decreases n - i,
    {
        let mut count: usize = 0;
        let mut j: usize = i + 1;
        while j < n
            invariant
                i < j <= n,
                n == order.len(),
                count == later_smaller(order@, i as int, j as int),
                count <= j - i - 1,
            decreases n - j,
        {
            if order[j] < order[i] {
                count = count + 1;
            }
            j = j + 1;
        }
        proof {
            lemma_falling_grows(nn, i + 1, nn);
            let f = falling(nn, i as int);
            assert(falling(nn, i + 1) == f * (nn - i));
            assert(rank + count * f < f * (nn - i)) by (nonlinear_arith)
                requires
                    rank < f,
                    count <= nn - i - 1,
                    f >= 1,
            ;
            assert(count * f <= f * (nn - i)) by (nonlinear_arith)
                requires
                    count <= nn - i - 1,
                    f >= 1,
            ;
        }
        rank = rank + count * factorial;
        factorial = factorial * (n - i);
        i = i + 1;
    }
    rank
}

} // verus!
