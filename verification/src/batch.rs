//! Planning a batch of transfer-entropy pairs: which pairs are skipped, which
//! come from the cache and which are computed, and the order of the results.

use vstd::prelude::*;

verus! {

/// Where the result for a candidate pair comes from.
#[derive(Clone, Copy, Debug, PartialEq, Eq, Structural)]
pub enum PairSource {
    /// A series of the pair is missing: the pair is dropped, and not counted.
    MissingData,
    /// The cache holds the pair's link.
    Cached,
    /// The pair's link is computed.
    Compute,
}

/// The source of a pair: dropped when data is missing, from the cache when
/// caching is on and the cache holds it, computed otherwise.
pub open spec fn pair_source(has_data: bool, cached: bool, cache_enabled: bool) -> PairSource {
    if !has_data {
        PairSource::MissingData
    } else if cache_enabled && cached {
        PairSource::Cached
    } else {
        PairSource::Compute
    }
}

/// The positions below `m`, in increasing order, that satisfy `keep`.
pub open spec fn positions(keep: spec_fn(int) -> bool, m: int) -> Seq<usize>
    decreases m,
{
    if m <= 0 {
        Seq::empty()
    } else if keep(m - 1) {
        positions(keep, m - 1).push((m - 1) as usize)
    } else {
        positions(keep, m - 1)
    }
}

/// The source of every candidate pair, and the pairs to compute in candidate order.
pub fn plan_batch(has_data: &Vec<bool>, cached: &Vec<bool>, cache_enabled: bool) -> (plan: (
    Vec<PairSource>,
    Vec<usize>,
))
    requires
        has_data.len() == cached.len(),
    ensures
        plan.0.len() == has_data.len(),
        forall|i: int|
            0 <= i < has_data.len() ==> #[trigger] plan.0[i] == pair_source(
                has_data[i],
                cached[i],
                cache_enabled,
            ),
        plan.1@ == positions(|i: int| plan.0@[i] == PairSource::Compute, has_data.len() as int),
{
    let n = has_data.len();
    let mut sources: Vec<PairSource> = Vec::new();
    let mut to_compute: Vec<usize> = Vec::new();
    let mut i: usize = 0;
    while i < n
        invariant
            i <= n,
            n == has_data.len(),
            n == cached.len(),
            sources.len() == i,
            forall|j: int|
                0 <= j < i ==> #[trigger] sources[j] == pair_source(has_data[j], cached[j], cache_enabled),
            to_compute@ == positions(|j: int| sources@[j] == PairSource::Compute, i as int),
        decreases n - i,
    {
        let src = if !has_data[i] {
            PairSource::MissingData
        } else if cache_enabled && cached[i] {
            PairSource::Cached
        } else {
            PairSource::Compute
        };
        let ghost before = sources@;
        sources.push(src);
        proof {
            lemma_positions_frame(
                |j: int| before[j] == PairSource::Compute,
                |j: int| sources@[j] == PairSource::Compute,
                i as int,
            );
        }
        if src == PairSource::Compute {
            to_compute.push(i);
        }
        i = i + 1;
    }
    (sources, to_compute)
}

proof fn lemma_positions_frame(a: spec_fn(int) -> bool, b: spec_fn(int) -> bool, m: int)
    requires
        forall|j: int| 0 <= j < m ==> #[trigger] a(j) == b(j),
    ensures
        positions(a, m) == positions(b, m),
    decreases m,
{
    if m > 0 {
        lemma_positions_frame(a, b, m - 1);
    }
}

/// A pair has a result: it came from the cache, or it was computed and the
/// estimator gave a value.
pub open spec fn has_result(source: PairSource, computed: bool) -> bool {
    source == PairSource::Cached || (source == PairSource::Compute && computed)
}

/// The pairs with a result, in candidate order: the order of the batch's links.
pub fn assemble_batch(sources: &Vec<PairSource>, computed: &Vec<bool>) -> (order: Vec<usize>)
    requires
        sources.len() == computed.len(),
    ensures
        order@ == positions(|i: int| has_result(sources@[i], computed@[i]), sources.len() as int),
        forall|a: int, b: int| 0 <= a < b < order.len() ==> order[a] < order[b],
{
    let n = sources.len();
    let mut order: Vec<usize> = Vec::new();
    let mut i: usize = 0;
    while i < n
        invariant
            i <= n,
            n == sources.len(),
            n == computed.len(),
            order@ == positions(|j: int| has_result(sources@[j], computed@[j]), i as int),
            forall|x: int| 0 <= x < order.len() ==> order[x] < i,
            forall|a: int, b: int| 0 <= a < b < order.len() ==> order[a] < order[b],
        decreases n - i,
    {
        if sources[i] == PairSource::Cached || (sources[i] == PairSource::Compute && computed[i]) {
            order.push(i);
        }
        i = i + 1;
    }
    order
}

} // verus!
