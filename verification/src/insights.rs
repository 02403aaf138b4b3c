//! The think engine's reading of a clustered graph: which insights the
//! cluster sizes of the Edge, Rare and Core layers give.

use vstd::prelude::*;

verus! {

/// Total number of nodes over clusters of the given sizes.
pub open spec fn total_size(sizes: Seq<usize>) -> int
    decreases sizes.len(),
{
    if sizes.len() == 0 {
        0
    } else {
        total_size(sizes.drop_last()) + sizes.last()
    }
}

/// Number of clusters of a single node.
pub open spec fn singletons(sizes: Seq<usize>) -> nat
    decreases sizes.len(),
{
    if sizes.len() == 0 {
        0
    } else {
        singletons(sizes.drop_last()) + if sizes.last() == 1 {
            1nat
        } else {
            0nat
        }
    }
}

/// Size of the largest cluster, 0 when there is none.
pub open spec fn largest(sizes: Seq<usize>) -> int
    decreases sizes.len(),
{
    if sizes.len() == 0 {
        0
    } else {
        let m = largest(sizes.drop_last());
        if sizes.last() > m {
            sizes.last() as int
        } else {
            m
        }
    }
}

/// What the think engine notices about a clustered graph.
#[derive(Clone, Debug, PartialEq, Eq, Structural)]
pub enum Insight {
    /// The Edge layer forms large clusters (more than five nodes on
    /// average): knowledge is consolidating.
    EdgeConsolidating { clusters: usize },
    /// The Edge layer is split into more than ten small clusters: new
    /// knowledge is spread over many topics.
    EdgeScattered { clusters: usize },
    /// The Rare layer holds isolated nodes, possibly isolated truths.
    IsolatedRare { count: usize },
    /// The Core layer holds a cluster of more than ten nodes: an
    /// established body of knowledge.
    LargeCore { size: usize },
    /// Nothing worth reporting.
    Nominal,
}

/// The insight on the Edge layer, if any.
pub open spec fn edge_insight(edge: Seq<usize>) -> Seq<Insight> {
    if edge.len() == 0 {
        Seq::empty()
    } else if total_size(edge) > 5 * edge.len() {
        seq![Insight::EdgeConsolidating { clusters: edge.len() as usize }]
    } else if edge.len() > 10 {
        seq![Insight::EdgeScattered { clusters: edge.len() as usize }]
    } else {
        Seq::empty()
    }
}

/// The insight on the Rare layer, if any.
pub open spec fn rare_insight(rare: Seq<usize>) -> Seq<Insight> {
    if singletons(rare) > 0 {
        seq![Insight::IsolatedRare { count: singletons(rare) as usize }]
    } else {
        Seq::empty()
    }
}

/// The insight on the Core layer, if any.
pub open spec fn core_insight(core: Seq<usize>) -> Seq<Insight> {
    if largest(core) > 10 {
        seq![Insight::LargeCore { size: largest(core) as usize }]
    } else {
        Seq::empty()
    }
}

/// The insights on Edge, Rare and Core in that order, or the nominal one
/// when none of them applies.
pub open spec fn insights_for(edge: Seq<usize>, rare: Seq<usize>, core: Seq<usize>) -> Seq<Insight> {
    let found = edge_insight(edge) + rare_insight(rare) + core_insight(core);
    if found.len() == 0 {
        seq![Insight::Nominal]
    } else {
        found
    }
}

proof fn lemma_total_prefix(sizes: Seq<usize>, i: int)
    requires
        0 <= i < sizes.len(),
    ensures
        total_size(sizes.take(i + 1)) == total_size(sizes.take(i)) + sizes[i],
        singletons(sizes.take(i + 1)) == singletons(sizes.take(i)) + if sizes[i] == 1 {
            1nat
        } else {
            0nat
        },
        largest(sizes.take(i + 1)) == if sizes[i] > largest(sizes.take(i)) {
            sizes[i] as int
        } else {
            largest(sizes.take(i))
        },
{
    assert(sizes.take(i + 1).drop_last() =~= sizes.take(i));
}

proof fn lemma_total_grows(sizes: Seq<usize>, i: int)
    requires
        0 <= i <= sizes.len(),
    ensures
        total_size(sizes.take(i)) <= total_size(sizes),
    decreases sizes.len() - i,
{
    if i < sizes.len() {
        lemma_total_prefix(sizes, i);
        lemma_total_grows(sizes, i + 1);
    } else {
        assert(sizes.take(i) =~= sizes);
    }
}

proof fn lemma_counts_bounded(sizes: Seq<usize>)
    ensures
        singletons(sizes) <= sizes.len(),
        0 <= largest(sizes) <= usize::MAX,
    decreases sizes.len(),
{
    if sizes.len() > 0 {
        lemma_counts_bounded(sizes.drop_last());
    }
}

/// Whether the clusters hold more than five nodes on average.
fn above_five_on_average(sizes: &Vec<usize>) -> (r: bool)
    ensures
        r == (total_size(sizes@) > 5 * sizes.len()),
{
    let n = sizes.len();
    let bound: u128 = 5 * (n as u128);
    let mut sum: u128 = 0;
    let mut i: usize = 0;
    while i < n
        invariant
            n == sizes.len(),
            bound == 5 * n,
            i <= n,
            sum == total_size(sizes@.take(i as int)),
            sum <= bound,
        decreases n - i,
    {
        proof {
            lemma_total_prefix(sizes@, i as int);
        }
        sum = sum + sizes[i] as u128;
        i = i + 1;
        if sum > bound {
            proof {
                lemma_total_grows(sizes@, i as int);
            }
            return true;
        }
    }
    assert(sizes@.take(n as int) =~= sizes@);
    false
}

/// Number of clusters of a single node.
fn count_singletons(sizes: &Vec<usize>) -> (c: usize)
    ensures
        c == singletons(sizes@),
{
    let mut c: usize = 0;
    let mut i: usize = 0;
    while i < sizes.len()
        invariant
            i <= sizes.len(),
            c == singletons(sizes@.take(i as int)),
        decreases sizes.len() - i,
    {
        proof {
            lemma_total_prefix(sizes@, i as int);
            lemma_counts_bounded(sizes@.take(i as int));
        }
        if sizes[i] == 1 {
            c = c + 1;
        }
        i = i + 1;
    }
    assert(sizes@.take(sizes.len() as int) =~= sizes@);
    c
}

/// Size of the largest cluster, 0 when there is none.
fn largest_size(sizes: &Vec<usize>) -> (m: usize)
    ensures
        m == largest(sizes@),
{
    let mut m: usize = 0;
    let mut i: usize = 0;
    while i < sizes.len()
        invariant
            i <= sizes.len(),
            m == largest(sizes@.take(i as int)),
        decreases sizes.len() - i,
    {
        proof {
            lemma_total_prefix(sizes@, i as int);
        }
        if sizes[i] > m {
            m = sizes[i];
        }
        i = i + 1;
    }
    assert(sizes@.take(sizes.len() as int) =~= sizes@);
    m
}

/// The insights that clusters of the given sizes in the Edge, Rare and Core
/// layers give: on Edge, consolidation when clusters average more than five
/// nodes, else scattering when there are more than ten of them; on Rare,
/// the number of single-node clusters, if any; on Core, the size of the
/// largest cluster when it exceeds ten; and the nominal insight when none
/// of these applies.
pub fn generate_insights(edge: &Vec<usize>, rare: &Vec<usize>, core: &Vec<usize>) -> (r: Vec<Insight>)
    ensures
        r@ == insights_for(edge@, rare@, core@),
        edge.len() > 0 && total_size(edge@) > 5 * edge.len() ==> r@.contains(
            Insight::EdgeConsolidating { clusters: edge.len() },
        ) && !r@.contains(Insight::EdgeScattered { clusters: edge.len() }),
        edge.len() > 10 && total_size(edge@) <= 5 * edge.len() ==> r@.contains(
            Insight::EdgeScattered { clusters: edge.len() },
        ) && !r@.contains(Insight::EdgeConsolidating { clusters: edge.len() }),
{
    proof {
        lemma_edge_insight_rule(edge@, rare@, core@);
    }
    let mut r: Vec<Insight> = Vec::new();
    if edge.len() > 0 {
        if above_five_on_average(edge) {
            r.push(Insight::EdgeConsolidating { clusters: edge.len() });
        } else if edge.len() > 10 {
            r.push(Insight::EdgeScattered { clusters: edge.len() });
        }
    }
    assert(r@ =~= edge_insight(edge@));
    let isolated = count_singletons(rare);
    if isolated > 0 {
        r.push(Insight::IsolatedRare { count: isolated });
    }
    assert(r@ =~= edge_insight(edge@) + rare_insight(rare@));
    let big = largest_size(core);
    if big > 10 {
        r.push(Insight::LargeCore { size: big });
    }
    assert(r@ =~= edge_insight(edge@) + rare_insight(rare@) + core_insight(core@));
    if r.len() == 0 {
        r.push(Insight::Nominal);
        assert(r@ =~= seq![Insight::Nominal]);
    }
    r
}

/// The Edge rule: clusters averaging more than five nodes give the
/// consolidation insight for their count and never the scattering one,
/// whatever their number; more than ten clusters averaging at most five
/// give the scattering insight and never the consolidation one; otherwise
/// neither. The nominal insight comes exactly when no rule applies, and
/// then alone.
pub proof fn lemma_edge_insight_rule(edge: Seq<usize>, rare: Seq<usize>, core: Seq<usize>)
    requires
        edge.len() <= usize::MAX,
    ensures
        ({
            let r = insights_for(edge, rare, core);
            let n = edge.len();
            let consolidating = Insight::EdgeConsolidating { clusters: n as usize };
            let scattered = Insight::EdgeScattered { clusters: n as usize };
            &&& (n > 0 && total_size(edge) > 5 * n) ==> r.contains(consolidating) && !r.contains(scattered)
            &&& (n > 10 && total_size(edge) <= 5 * n) ==> r.contains(scattered) && !r.contains(consolidating)
            &&& (n <= 10 && total_size(edge) <= 5 * n) ==> !r.contains(scattered) && !r.contains(consolidating)
            &&& r.contains(Insight::Nominal) <==> (r.len() == 1 && edge_insight(edge).len() == 0 && singletons(rare)
                == 0 && largest(core) <= 10)
        }),
{
    let r = insights_for(edge, rare, core);
    let found = edge_insight(edge) + rare_insight(rare) + core_insight(core);
    let n = edge.len();
    let consolidating = Insight::EdgeConsolidating { clusters: n as usize };
    let scattered = Insight::EdgeScattered { clusters: n as usize };
    assert forall|i: int| 0 <= i < rare_insight(rare).len() implies rare_insight(rare)[i] is IsolatedRare by {}
    assert forall|i: int| 0 <= i < core_insight(core).len() implies core_insight(core)[i] is LargeCore by {}
    if found.len() > 0 {
        assert forall|i: int| 0 <= i < r.len() implies r[i] != Insight::Nominal by {
            assert(r[i] == found[i]);
            if i < edge_insight(edge).len() {
            } else if i < edge_insight(edge).len() + rare_insight(rare).len() {
                assert(found[i] == rare_insight(rare)[i - edge_insight(edge).len()]);
            } else {
                assert(found[i] == core_insight(core)[i - edge_insight(edge).len() - rare_insight(rare).len()]);
            }
        }
        assert forall|i: int| edge_insight(edge).len() <= i < r.len() implies r[i] != consolidating && r[i]
            != scattered by {
            assert(r[i] == found[i]);
            if i < edge_insight(edge).len() + rare_insight(rare).len() {
                assert(found[i] == rare_insight(rare)[i - edge_insight(edge).len()]);
            } else {
                assert(found[i] == core_insight(core)[i - edge_insight(edge).len() - rare_insight(rare).len()]);
            }
        }
        let e = edge_insight(edge);
        assert forall|i: int| 0 <= i < e.len() implies r[i] == e[i] by {
            assert(r[i] == found[i]);
        }
        if n > 0 && total_size(edge) > 5 * n {
            assert(e == seq![consolidating]);
            assert(r[0] == consolidating);
            assert(r.contains(consolidating));
            assert forall|i: int| 0 <= i < r.len() implies r[i] != scattered by {
                if i < e.len() {
                    assert(r[i] == consolidating);
                }
            }
        } else if n > 10 {
            assert(e == seq![scattered]);
            assert(r[0] == scattered);
            assert(r.contains(scattered));
            assert forall|i: int| 0 <= i < r.len() implies r[i] != consolidating by {
                if i < e.len() {
                    assert(r[i] == scattered);
                }
            }
        } else {
            assert(e.len() == 0);
            assert forall|i: int| 0 <= i < r.len() implies r[i] != consolidating && r[i] != scattered by {}
        }
        assert(!r.contains(Insight::Nominal));
        if singletons(rare) > 0 {
            assert(rare_insight(rare).len() == 1);
        }
        if largest(core) > 10 {
            assert(core_insight(core).len() == 1);
        }
    } else {
        assert(r =~= seq![Insight::Nominal]);
        assert(r[0] == Insight::Nominal);
        assert(r.contains(Insight::Nominal));
        assert(edge_insight(edge).len() == 0);
        assert(rare_insight(rare).len() == 0);
        assert(core_insight(core).len() == 0);
        assert(!r.contains(consolidating) && !r.contains(scattered));
    }
}

} // verus!
