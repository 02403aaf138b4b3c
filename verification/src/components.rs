//! Connected components of the undirected graph induced on a set of
//! active nodes.
//!
//! Nodes are the indices `0..active.len()`; a node takes part when its
//! `active` flag is set, and an edge counts when both of its endpoints take
//! part. Clusters come out in no promised order, and so do the members of a
//! cluster; what is promised is that they are exactly the components.

use vstd::prelude::*;

verus! {

/// `u` and `v` are joined by one of the edges, both being active.
pub open spec fn adjacent(active: Seq<bool>, edges: Seq<(usize, usize)>, u: int, v: int) -> bool {
    &&& 0 <= u < active.len()
    &&& 0 <= v < active.len()
    &&& active[u]
    &&& active[v]
    &&& exists|i: int|
        0 <= i < edges.len() && ((edges[i].0 == u && edges[i].1 == v) || (edges[i].0 == v
            && edges[i].1 == u))
}

/// `p` is a walk: a non-empty sequence of active nodes, each adjacent to the next.
pub open spec fn is_walk(active: Seq<bool>, edges: Seq<(usize, usize)>, p: Seq<int>) -> bool {
    &&& p.len() >= 1
    &&& forall|i: int| 0 <= i < p.len() ==> 0 <= #[trigger] p[i] < active.len() && active[p[i]]
    &&& forall|i: int| 0 <= i < p.len() - 1 ==> adjacent(active, edges, #[trigger] p[i], p[i + 1])
}

/// Some walk leads from `u` to `v`.
pub open spec fn connected(active: Seq<bool>, edges: Seq<(usize, usize)>, u: int, v: int) -> bool {
    exists|p: Seq<int>| #[trigger] is_walk(active, edges, p) && p[0] == u && p.last() == v
}

/// `u` occurs in some cluster.
pub open spec fn in_some_cluster(clusters: Seq<Seq<usize>>, u: int) -> bool {
    exists|c: int, i: int|
        0 <= c < clusters.len() && 0 <= i < clusters[c].len() && clusters[c][i] == u
}

/// `clusters` are the connected components of the active nodes: every active
/// node occurs exactly once, and two nodes share a cluster iff they are
/// connected.
pub open spec fn is_component_partition(
    active: Seq<bool>,
    edges: Seq<(usize, usize)>,
    clusters: Seq<Seq<usize>>,
) -> bool {
    &&& forall|c: int| 0 <= c < clusters.len() ==> #[trigger] clusters[c].len() > 0
    &&& forall|c: int, i: int|
        0 <= c < clusters.len() && 0 <= i < clusters[c].len() ==> #[trigger] clusters[c][i]
            < active.len() && active[clusters[c][i] as int]
    &&& forall|c1: int, i: int, c2: int, j: int|
        0 <= c1 < clusters.len() && 0 <= i < clusters[c1].len() && 0 <= c2 < clusters.len() && 0
            <= j < clusters[c2].len() && #[trigger] clusters[c1][i] == #[trigger] clusters[c2][j]
            ==> c1 == c2 && i == j
    &&& forall|u: int| 0 <= u < active.len() && active[u] ==> #[trigger] in_some_cluster(clusters, u)
    &&& forall|c: int, i: int, j: int|
        0 <= c < clusters.len() && 0 <= i < clusters[c].len() && 0 <= j < clusters[c].len()
            ==> connected(active, edges, #[trigger] clusters[c][i] as int, #[trigger] clusters[c][j] as int)
    &&& forall|c: int, i: int, v: int|
        0 <= c < clusters.len() && 0 <= i < clusters[c].len() && #[trigger] connected(
            active,
            edges,
            clusters[c][i] as int,
            v,
        ) ==> clusters[c].contains(v as usize)
}

/// A single active node is a walk from itself to itself.
pub proof fn lemma_connected_refl(active: Seq<bool>, edges: Seq<(usize, usize)>, u: int)
    requires
        0 <= u < active.len(),
        active[u],
    ensures
        connected(active, edges, u, u),
{
    let p = seq![u];
    assert(is_walk(active, edges, p));
}

/// Adjacency is symmetric.
pub proof fn lemma_adjacent_symmetric(active: Seq<bool>, edges: Seq<(usize, usize)>, u: int, v: int)
    requires
        adjacent(active, edges, u, v),
    ensures
        adjacent(active, edges, v, u),
{
    let i = choose|i: int|
        0 <= i < edges.len() && ((edges[i].0 == u && edges[i].1 == v) || (edges[i].0 == v
            && edges[i].1 == u));
    assert(0 <= i < edges.len() && ((edges[i].0 == v && edges[i].1 == u) || (edges[i].0 == u
        && edges[i].1 == v)));
}

/// A walk extended by an adjacent node is a walk.
pub proof fn lemma_connected_extend(
    active: Seq<bool>,
    edges: Seq<(usize, usize)>,
    u: int,
    v: int,
    w: int,
)
    requires
        connected(active, edges, u, v),
        adjacent(active, edges, v, w),
    ensures
        connected(active, edges, u, w),
{
    let p = choose|p: Seq<int>| #[trigger] is_walk(active, edges, p) && p[0] == u && p.last() == v;
    let q = p.push(w);
    assert forall|i: int| 0 <= i < q.len() - 1 implies adjacent(active, edges, #[trigger] q[i], q[i + 1]) by {
        if i < p.len() - 1 {
            assert(q[i] == p[i] && q[i + 1] == p[i + 1]);
        }
    }
    assert(is_walk(active, edges, q));
}

/// Reversing a walk gives a walk.
pub proof fn lemma_connected_symmetric(active: Seq<bool>, edges: Seq<(usize, usize)>, u: int, v: int)
    requires
        connected(active, edges, u, v),
    ensures
        connected(active, edges, v, u),
{
    let p = choose|p: Seq<int>| #[trigger] is_walk(active, edges, p) && p[0] == u && p.last() == v;
    let q = p.reverse();
    assert forall|i: int| 0 <= i < q.len() - 1 implies adjacent(active, edges, #[trigger] q[i], q[i + 1]) by {
        let a = p.len() - 1 - i;
        assert(q[i] == p[a]);
        assert(q[i + 1] == p[a - 1]);
        assert(adjacent(active, edges, p[a - 1], p[a]));
        lemma_adjacent_symmetric(active, edges, p[a - 1], p[a]);
    }
    assert forall|i: int| 0 <= i < q.len() implies 0 <= #[trigger] q[i] < active.len() && active[q[i]] by {
        assert(q[i] == p[p.len() - 1 - i]);
    }
    assert(is_walk(active, edges, q));
}

/// Walks compose.
pub proof fn lemma_connected_trans(
    active: Seq<bool>,
    edges: Seq<(usize, usize)>,
    u: int,
    v: int,
    w: int,
)
    requires
        connected(active, edges, u, v),
        connected(active, edges, v, w),
    ensures
        connected(active, edges, u, w),
{
    let p = choose|p: Seq<int>| #[trigger] is_walk(active, edges, p) && p[0] == u && p.last() == v;
    let q = choose|q: Seq<int>| #[trigger] is_walk(active, edges, q) && q[0] == v && q.last() == w;
    let r = p + q.subrange(1, q.len() as int);
    assert forall|i: int| 0 <= i < r.len() implies 0 <= #[trigger] r[i] < active.len() && active[r[i]] by {
        if i >= p.len() {
            assert(r[i] == q[i - p.len() + 1]);
        }
    }
    assert forall|i: int| 0 <= i < r.len() - 1 implies adjacent(active, edges, #[trigger] r[i], r[i + 1]) by {
        if i < p.len() - 1 {
            assert(r[i] == p[i] && r[i + 1] == p[i + 1]);
        } else if i == p.len() - 1 {
            assert(r[i] == q[0]);
            assert(r[i + 1] == q[1]);
        } else {
            let k = i - p.len() + 1;
            assert(r[i] == q[k] && r[i + 1] == q[k + 1]);
        }
    }
    assert(is_walk(active, edges, r));
}

/// Every node on a walk that starts inside a set closed under adjacency stays in it.
proof fn lemma_closed_walk(
    active: Seq<bool>,
    edges: Seq<(usize, usize)>,
    comp: Seq<Option<usize>>,
    c: usize,
    p: Seq<int>,
    k: int,
)
    requires
        comp.len() == active.len(),
        is_walk(active, edges, p),
        comp[p[0]] == Some(c),
        0 <= k < p.len(),
        forall|x: int, y: int|
            0 <= x < comp.len() && comp[x] == Some(c) && #[trigger] adjacent(active, edges, x, y)
                ==> comp[y] == Some(c),
    ensures
        comp[p[k]] == Some(c),
    decreases k,
{
    if k > 0 {
        lemma_closed_walk(active, edges, comp, c, p, k - 1);
        assert(adjacent(active, edges, p[k - 1], p[k - 1 + 1]));
    }
}

/// Total number of members over all clusters.
pub open spec fn sum_lens(clusters: Seq<Seq<usize>>) -> nat
    decreases clusters.len(),
{
    if clusters.len() == 0 {
        0
    } else {
        sum_lens(clusters.drop_last()) + clusters.last().len()
    }
}

proof fn lemma_count_none_all(s: Seq<Option<usize>>)
    requires
        forall|i: int| 0 <= i < s.len() ==> s[i] is None,
    ensures
        count_none(s) == s.len(),
    decreases s.len(),
{
    if s.len() > 0 {
        lemma_count_none_all(s.drop_last());
    }
}

/// Number of unassigned slots.
spec fn count_none(s: Seq<Option<usize>>) -> nat
    decreases s.len(),
{
    if s.len() == 0 {
        0
    } else {
        count_none(s.drop_last()) + if s.last() is None {
            1nat
        } else {
            0nat
        }
    }
}

proof fn lemma_count_none_update(s: Seq<Option<usize>>, i: int, c: usize)
    requires
        0 <= i < s.len(),
        s[i] is None,
    ensures
        count_none(s.update(i, Some(c))) + 1 == count_none(s),
    decreases s.len(),
{
    let t = s.update(i, Some(c));
    if i == s.len() - 1 {
        assert(t.drop_last() =~= s.drop_last());
    } else {
        assert(t.drop_last() =~= s.drop_last().update(i, Some(c)));
        lemma_count_none_update(s.drop_last(), i, c);
    }
}

/// Adjacency lists of the active subgraph: `adj[u]` holds `v` iff `u` and `v` are adjacent.
fn build_adjacency(active: &Vec<bool>, edges: &Vec<(usize, usize)>) -> (adj: Vec<Vec<usize>>)
    ensures
        adj.len() == active.len(),
        forall|u: int, j: int|
            0 <= u < adj.len() && 0 <= j < adj[u].len() ==> #[trigger] adj[u][j] < active.len(),
        forall|u: int, v: usize|
            0 <= u < adj.len() ==> (#[trigger] adj[u]@.contains(v) <==> adjacent(active@, edges@, u, v as int)),
{
    let n = active.len();
    let mut adj: Vec<Vec<usize>> = Vec::new();
    let mut i: usize = 0;
    while i < n
        invariant
            i <= n,
            n == active.len(),
            adj.len() == i,
            forall|u: int| 0 <= u < i ==> (#[trigger] adj[u]).len() == 0,
        decreases n - i,
    {
        adj.push(Vec::new());
        i = i + 1;
    }
    let mut k: usize = 0;
    while k < edges.len()
        invariant
            k <= edges.len(),
            n == active.len(),
            adj.len() == n,
            forall|u: int, j: int|
                0 <= u < adj.len() && 0 <= j < adj[u].len() ==> #[trigger] adj[u][j] < n,
            forall|u: int, v: usize|
                0 <= u < n ==> (#[trigger] adj[u]@.contains(v)
                    <==> {
                    &&& 0 <= v < n
                    &&& active@[u]
                    &&& active@[v as int]
                    &&& exists|e: int|
                        0 <= e < k && ((edges@[e].0 == u && edges@[e].1 == v) || (edges@[e].0 == v
                            && edges@[e].1 == u))
                }),
        decreases edges.len() - k,
    {
        let (a, b) = edges[k];
        if a < n && b < n && active[a] && active[b] {
            let ghost old_adj = adj@;
            adj[a].push(b);
            if a != b {
                adj[b].push(a);
            }
            assert forall|u: int, v: usize|
                0 <= u < n implies (#[trigger] adj[u]@.contains(v)
                <==> {
                &&& 0 <= v < n
                &&& active@[u]
                &&& active@[v as int]
                &&& exists|e: int|
                    0 <= e < k + 1 && ((edges@[e].0 == u && edges@[e].1 == v) || (edges@[e].0 == v
                        && edges@[e].1 == u))
            }) by {
                let newer = (u == a && v == b) || (u == b && v == a);
                if adj[u]@.contains(v) {
                    if !old_adj[u]@.contains(v) {
                        assert(newer);
                    }
                }
                if 0 <= v < n && active@[u] && active@[v as int] && exists|e: int|
                    0 <= e < k + 1 && ((edges@[e].0 == u && edges@[e].1 == v) || (edges@[e].0 == v
                        && edges@[e].1 == u)) {
                    if newer {
                        if u == a {
                            assert(adj[u]@.last() == b);
                        } else {
                            assert(adj[u]@.last() == a);
                        }
                    } else {
                        let e = choose|e: int|
                            0 <= e < k + 1 && ((edges@[e].0 == u && edges@[e].1 == v) || (
                            edges@[e].0 == v && edges@[e].1 == u));
                        assert(e < k);
                        assert(old_adj[u]@.contains(v));
                        let j = choose|j: int| 0 <= j < old_adj[u]@.len() && old_adj[u]@[j] == v;
                        assert(adj[u]@[j] == v);
                    }
                }
            }
        } else {
            assert forall|u: int, v: usize|
                0 <= u < n implies (#[trigger] adj[u]@.contains(v)
                <==> {
                &&& 0 <= v < n
                &&& active@[u]
                &&& active@[v as int]
                &&& exists|e: int|
                    0 <= e < k + 1 && ((edges@[e].0 == u && edges@[e].1 == v) || (edges@[e].0 == v
                        && edges@[e].1 == u))
            }) by {
                if 0 <= v < n && active@[u] && active@[v as int] && exists|e: int|
                    0 <= e < k + 1 && ((edges@[e].0 == u && edges@[e].1 == v) || (edges@[e].0 == v
                        && edges@[e].1 == u)) {
                    let e = choose|e: int|
                        0 <= e < k + 1 && ((edges@[e].0 == u && edges@[e].1 == v) || (edges@[e].0
                            == v && edges@[e].1 == u));
                    assert(e < k);
                }
            }
        }
        k = k + 1;
    }
    adj
}


/// Invariant of the search: what the assignment `comp` says about the
/// clusters built so far.
spec fn search_inv(
    active: Seq<bool>,
    edges: Seq<(usize, usize)>,
    comp: Seq<Option<usize>>,
    clusters: Seq<Seq<usize>>,
    seeds: Seq<int>,
    closed_below: int,
) -> bool {
    &&& comp.len() == active.len()
    &&& seeds.len() == clusters.len()
    &&& forall|u: int|
        0 <= u < comp.len() && #[trigger] comp[u] is Some ==> comp[u]->0 < clusters.len()
            && active[u] && clusters[comp[u]->0 as int].contains(u as usize)
            && connected(active, edges, seeds[comp[u]->0 as int], u)
    &&& forall|c: int, i: int|
        0 <= c < clusters.len() && 0 <= i < clusters[c].len() ==> #[trigger] clusters[c][i]
            < comp.len() && comp[clusters[c][i] as int] == Some(c as usize)
    &&& forall|c: int, i: int, j: int|
        0 <= c < clusters.len() && 0 <= i < j < clusters[c].len() ==> #[trigger] clusters[c][i]
            != #[trigger] clusters[c][j]
    &&& forall|x: int, y: int|
        0 <= x < comp.len() && #[trigger] comp[x] is Some && comp[x]->0 < closed_below
            && #[trigger] adjacent(active, edges, x, y) ==> comp[y] == comp[x]
}

proof fn lemma_members_valid(
    active: Seq<bool>,
    edges: Seq<(usize, usize)>,
    comp: Seq<Option<usize>>,
    clusters: Seq<Seq<usize>>,
    seeds: Seq<int>,
)
    requires
        clusters.len() <= usize::MAX,
        comp.len() <= usize::MAX,
        search_inv(active, edges, comp, clusters, seeds, clusters.len() as int),
        forall|u: int| 0 <= u < comp.len() && active[u] ==> #[trigger] comp[u] is Some,
        forall|c: int| 0 <= c < clusters.len() ==> #[trigger] clusters[c].len() > 0,
    ensures
        forall|c: int, i: int|
            0 <= c < clusters.len() && 0 <= i < clusters[c].len() ==> #[trigger] clusters[c][i]
                < active.len() && active[clusters[c][i] as int],
{
    assert forall|c: int, i: int|
        0 <= c < clusters.len() && 0 <= i < clusters[c].len() implies #[trigger] clusters[c][i]
        < active.len() && active[clusters[c][i] as int] by {
        let u = clusters[c][i] as int;
        assert(comp[u] is Some);
    }
}

proof fn lemma_members_unique(
    active: Seq<bool>,
    edges: Seq<(usize, usize)>,
    comp: Seq<Option<usize>>,
    clusters: Seq<Seq<usize>>,
    seeds: Seq<int>,
)
    requires
        clusters.len() <= usize::MAX,
        comp.len() <= usize::MAX,
        search_inv(active, edges, comp, clusters, seeds, clusters.len() as int),
        forall|u: int| 0 <= u < comp.len() && active[u] ==> #[trigger] comp[u] is Some,
        forall|c: int| 0 <= c < clusters.len() ==> #[trigger] clusters[c].len() > 0,
    ensures
        forall|c1: int, i: int, c2: int, j: int|
            0 <= c1 < clusters.len() && 0 <= i < clusters[c1].len() && 0 <= c2 < clusters.len() && 0
                <= j < clusters[c2].len() && #[trigger] clusters[c1][i] == #[trigger] clusters[c2][j]
                ==> c1 == c2 && i == j,
{
    assert forall|c1: int, i: int, c2: int, j: int|
        0 <= c1 < clusters.len() && 0 <= i < clusters[c1].len() && 0 <= c2 < clusters.len() && 0
            <= j < clusters[c2].len() && #[trigger] clusters[c1][i] == #[trigger] clusters[c2][j]
        implies c1 == c2 && i == j by {
        let u = clusters[c1][i] as int;
        assert(comp[u] == Some(c1 as usize));
        assert(comp[u] == Some(c2 as usize));
        assert(c1 == c2);
        if i < j {
            assert(clusters[c1][i] != clusters[c1][j]);
        } else if j < i {
            assert(clusters[c1][j] != clusters[c1][i]);
        }
    }
}

proof fn lemma_members_cover(active: Seq<bool>, comp: Seq<Option<usize>>, clusters: Seq<Seq<usize>>)
    requires
        comp.len() == active.len(),
        comp.len() <= usize::MAX,
        forall|u: int|
            0 <= u < comp.len() && #[trigger] comp[u] is Some ==> comp[u]->0 < clusters.len()
                && clusters[comp[u]->0 as int].contains(u as usize),
        forall|u: int| 0 <= u < comp.len() && active[u] ==> #[trigger] comp[u] is Some,
    ensures
        forall|u: int| 0 <= u < active.len() && active[u] ==> #[trigger] in_some_cluster(clusters, u),
{
    assert forall|u: int| 0 <= u < active.len() && active[u] implies #[trigger] in_some_cluster(
        clusters,
        u,
    ) by {
        assert(comp[u] is Some);
        let c = comp[u]->0 as int;
        assert(clusters[c].contains(u as usize));
        let i = choose|i: int| 0 <= i < clusters[c].len() && clusters[c][i] == u as usize;
        assert(0 <= c < clusters.len() && 0 <= i < clusters[c].len() && clusters[c][i] == u);
    }
}

proof fn lemma_members_connected(
    active: Seq<bool>,
    edges: Seq<(usize, usize)>,
    comp: Seq<Option<usize>>,
    clusters: Seq<Seq<usize>>,
    seeds: Seq<int>,
)
    requires
        clusters.len() <= usize::MAX,
        comp.len() <= usize::MAX,
        search_inv(active, edges, comp, clusters, seeds, clusters.len() as int),
        forall|u: int| 0 <= u < comp.len() && active[u] ==> #[trigger] comp[u] is Some,
        forall|c: int| 0 <= c < clusters.len() ==> #[trigger] clusters[c].len() > 0,
    ensures
        forall|c: int, i: int, j: int|
            0 <= c < clusters.len() && 0 <= i < clusters[c].len() && 0 <= j < clusters[c].len()
                ==> connected(active, edges, #[trigger] clusters[c][i] as int, #[trigger] clusters[c][j] as int),
{
    assert forall|c: int, i: int, j: int|
        0 <= c < clusters.len() && 0 <= i < clusters[c].len() && 0 <= j < clusters[c].len()
        implies connected(active, edges, #[trigger] clusters[c][i] as int, #[trigger] clusters[c][j] as int) by {
        let u = clusters[c][i] as int;
        let v = clusters[c][j] as int;
        assert(comp[u] == Some(c as usize));
        assert(comp[v] == Some(c as usize));
        assert(connected(active, edges, seeds[c], u));
        assert(connected(active, edges, seeds[c], v));
        lemma_connected_symmetric(active, edges, seeds[c], u);
        lemma_connected_trans(active, edges, u, seeds[c], v);
    }
}

proof fn lemma_members_closed(
    active: Seq<bool>,
    edges: Seq<(usize, usize)>,
    comp: Seq<Option<usize>>,
    clusters: Seq<Seq<usize>>,
    seeds: Seq<int>,
)
    requires
        clusters.len() <= usize::MAX,
        comp.len() <= usize::MAX,
        search_inv(active, edges, comp, clusters, seeds, clusters.len() as int),
        forall|u: int| 0 <= u < comp.len() && active[u] ==> #[trigger] comp[u] is Some,
        forall|c: int| 0 <= c < clusters.len() ==> #[trigger] clusters[c].len() > 0,
    ensures
        forall|c: int, i: int, v: int|
            0 <= c < clusters.len() && 0 <= i < clusters[c].len() && #[trigger] connected(
                active,
                edges,
                clusters[c][i] as int,
                v,
            ) ==> clusters[c].contains(v as usize),
{
    assert forall|c: int, i: int, v: int|
        0 <= c < clusters.len() && 0 <= i < clusters[c].len() && #[trigger] connected(
            active,
            edges,
            clusters[c][i] as int,
            v,
        ) implies clusters[c].contains(v as usize) by {
        let u = clusters[c][i] as int;
        let p = choose|p: Seq<int>| #[trigger] is_walk(active, edges, p) && p[0] == u && p.last() == v;
        assert(comp[u] == Some(c as usize));
        lemma_closed_walk(active, edges, comp, c as usize, p, p.len() - 1);
        assert(comp[v] == Some(c as usize));
    }
}

proof fn lemma_partition_from_inv(
    active: Seq<bool>,
    edges: Seq<(usize, usize)>,
    comp: Seq<Option<usize>>,
    clusters: Seq<Seq<usize>>,
    seeds: Seq<int>,
)
    requires
        clusters.len() <= usize::MAX,
        comp.len() <= usize::MAX,
        search_inv(active, edges, comp, clusters, seeds, clusters.len() as int),
        forall|u: int| 0 <= u < comp.len() && active[u] ==> #[trigger] comp[u] is Some,
        forall|c: int| 0 <= c < clusters.len() ==> #[trigger] clusters[c].len() > 0,
    ensures
        is_component_partition(active, edges, clusters),
{
    lemma_members_valid(active, edges, comp, clusters, seeds);
    lemma_members_unique(active, edges, comp, clusters, seeds);
    lemma_members_cover(active, comp, clusters);
    lemma_members_connected(active, edges, comp, clusters, seeds);
    lemma_members_closed(active, edges, comp, clusters, seeds);
}

/// The connected components of the subgraph induced on the active nodes.
pub fn connected_components(active: &Vec<bool>, edges: &Vec<(usize, usize)>) -> (clusters: Vec<Vec<usize>>)
    ensures
        is_component_partition(active@, edges@, clusters@.map_values(|c: Vec<usize>| c@)),
        sum_lens(clusters@.map_values(|c: Vec<usize>| c@)) <= active.len(),
{
    let n = active.len();
    let adj = build_adjacency(active, edges);
    let mut comp: Vec<Option<usize>> = Vec::new();
    let mut i: usize = 0;
    while i < n
        invariant
            i <= n,
            comp.len() == i,
            forall|u: int| 0 <= u < i ==> comp[u] is None,
        decreases n - i,
    {
        comp.push(None);
        i = i + 1;
    }
    let mut clusters: Vec<Vec<usize>> = Vec::new();
    let ghost mut seeds: Seq<int> = Seq::empty();
    proof {
        lemma_count_none_all(comp@);
    }
    let mut s: usize = 0;
    while s < n
        invariant
            s <= n,
            n == active.len(),
            adj.len() == n,
            forall|u: int, j: int| 0 <= u < adj.len() && 0 <= j < adj[u].len() ==> #[trigger] adj[u][j] < n,
            forall|u: int, v: usize|
                0 <= u < adj.len() ==> (#[trigger] adj[u]@.contains(v) <==> adjacent(active@, edges@, u, v as int)),
            search_inv(active@, edges@, comp@, clusters@.map_values(|c: Vec<usize>| c@), seeds, clusters.len() as int),
            sum_lens(clusters@.map_values(|c: Vec<usize>| c@)) + count_none(comp@) == n,
            forall|u: int| 0 <= u < s && active@[u] ==> #[trigger] comp@[u] is Some,
            forall|c: int| 0 <= c < clusters.len() ==> #[trigger] clusters[c].len() > 0,
        decreases n - s,
    {
        if active[s] && comp[s].is_none() {
            let cid = clusters.len();
            let mut members: Vec<usize> = Vec::new();
            let mut stack: Vec<usize> = Vec::new();
            stack.push(s);
            proof {
                seeds = seeds.push(s as int);
                lemma_connected_refl(active@, edges@, s as int);
            }
            let ghost mut cl = clusters@.map_values(|c: Vec<usize>| c@).push(members@);
            assert(stack@[0] == s);
            assert(cl.drop_last() =~= clusters@.map_values(|c: Vec<usize>| c@));
            while stack.len() > 0
                invariant
                    n == active.len(),
                    s < n,
                    active@[s as int],
                    cid == clusters.len(),
                    adj.len() == n,
                    forall|u: int, j: int| 0 <= u < adj.len() && 0 <= j < adj[u].len() ==> #[trigger] adj[u][j] < n,
                    forall|u: int, v: usize|
                        0 <= u < adj.len() ==> (#[trigger] adj[u]@.contains(v) <==> adjacent(active@, edges@, u, v as int)),
                    cl == clusters@.map_values(|c: Vec<usize>| c@).push(members@),
                    seeds.len() == cid + 1,
                    seeds[cid as int] == s as int,
                    search_inv(active@, edges@, comp@, cl, seeds, cid as int),
                    sum_lens(cl) + count_none(comp@) == n,
                    forall|u: int| 0 <= u < s && active@[u] ==> #[trigger] comp@[u] is Some,
                    forall|c: int| 0 <= c < clusters.len() ==> #[trigger] clusters[c].len() > 0,
                    comp@[s as int] == Some(cid) || stack@.contains(s),
                    forall|j: int| 0 <= j < stack.len() ==> #[trigger] stack[j] < n
                        && active@[stack[j] as int]
                        && connected(active@, edges@, s as int, stack[j] as int)
                        && (comp@[stack[j] as int] is None || comp@[stack[j] as int] == Some(cid)),
                    forall|x: int, y: int|
                        0 <= x < n && #[trigger] comp@[x] == Some(cid) && #[trigger] adjacent(active@, edges@, x, y)
                            ==> comp@[y] == Some(cid) || stack@.contains(y as usize),
                decreases count_none(comp@), stack.len(),
            {
                let ghost pre_pop = stack@;
                let cur = stack.pop().unwrap();
                proof {
                    assert(pre_pop == stack@.push(cur));
                    if pre_pop.contains(s) && cur != s {
                        let m = choose|m: int| 0 <= m < pre_pop.len() && pre_pop[m] == s;
                        assert(stack@[m] == s);
                    }
                }
                if comp[cur].is_none() {
                    let ghost old_comp = comp@;
                    let ghost old_stack = stack@;
                    let ghost old_cl = cl;
                    let ghost old_members = members@;
                    proof {
                        lemma_count_none_update(comp@, cur as int, cid);
                    }
                    comp.set(cur, Some(cid));
                    members.push(cur);
                    proof {
                        cl = clusters@.map_values(|c: Vec<usize>| c@).push(members@);
                        assert(cl.drop_last() =~= old_cl.drop_last());
                        assert forall|u: int|
                            0 <= u < comp.len() && #[trigger] comp@[u] is Some implies comp@[u]->0 < cl.len()
                                && active@[u] && cl[comp@[u]->0 as int].contains(u as usize)
                                && connected(active@, edges@, seeds[comp@[u]->0 as int], u) by {
                            if u == cur as int {
                                assert(cl[cid as int] == members@);
                                assert(members@.last() == cur);
                            } else {
                                assert(old_comp[u] is Some);
                                let c = comp@[u]->0 as int;
                                if c < cid {
                                    assert(cl[c] == clusters[c]@);
                                } else {
                                    assert(old_cl[c] == old_members);
                                    assert(old_members.contains(u as usize));
                                    let k = choose|k: int| 0 <= k < old_members.len() && old_members[k] == u as usize;
                                    assert(members@[k] == u as usize);
                                }
                            }
                        }
                        assert forall|c: int, i: int|
                            0 <= c < cl.len() && 0 <= i < cl[c].len() implies #[trigger] cl[c][i]
                                < comp.len() && comp@[cl[c][i] as int] == Some(c as usize) by {
                            if c == cid && i == cl[c].len() - 1 {
                            } else {
                                assert(cl[c][i] == old_cl[c][i]);
                                assert(old_comp[old_cl[c][i] as int] == Some(c as usize));
                            }
                        }
                        assert forall|c: int, i: int, j: int|
                            0 <= c < cl.len() && 0 <= i < j < cl[c].len() implies #[trigger] cl[c][i]
                                != #[trigger] cl[c][j] by {
                            if c == cid && j == cl[c].len() - 1 {
                                assert(cl[c][i] == old_cl[c][i]);
                                assert(old_comp[old_cl[c][i] as int] == Some(cid));
                            } else {
                                assert(cl[c][i] == old_cl[c][i]);
                                assert(cl[c][j] == old_cl[c][j]);
                            }
                        }
                    }
                    let mut j: usize = 0;
                    let row_len = adj[cur].len();
                    while j < row_len
                        invariant
                            n == active.len(),
                            cur < n,
                            row_len == adj[cur as int].len(),
                            j <= row_len,
                            adj.len() == n,
                            forall|u: int, k: int| 0 <= u < adj.len() && 0 <= k < adj[u].len() ==> #[trigger] adj[u][k] < n,
                            comp.len() == n,
                            old_comp.len() == n,
                            comp@ == old_comp.update(cur as int, Some(cid)),
                            old_comp[cur as int] is None,
                            forall|u: int, v: usize|
                                0 <= u < adj.len() ==> (#[trigger] adj[u]@.contains(v) <==> adjacent(active@, edges@, u, v as int)),
                            forall|x: int, y: int|
                                0 <= x < old_comp.len() && #[trigger] old_comp[x] is Some && old_comp[x]->0 < cid
                                    && #[trigger] adjacent(active@, edges@, x, y) ==> old_comp[y] == old_comp[x],
                            forall|x: int| 0 <= x < n && #[trigger] old_comp[x] is Some ==> old_comp[x]->0 <= cid,
                            connected(active@, edges@, s as int, cur as int),
                            forall|k: int| 0 <= k < old_stack.len() ==> stack@[k] == old_stack[k],
                            stack.len() >= old_stack.len(),
                            forall|k: int| 0 <= k < stack.len() ==> #[trigger] stack[k] < n
                                && active@[stack[k] as int]
                                && connected(active@, edges@, s as int, stack[k] as int)
                                && (comp@[stack[k] as int] is None || comp@[stack[k] as int] == Some(cid)),
                            forall|k: int| 0 <= k < j ==> comp@[#[trigger] adj[cur as int][k] as int] == Some(cid)
                                || stack@.contains(adj[cur as int][k]),
                        decreases row_len - j,
                    {
                        let nb = adj[cur][j];
                        proof {
                            assert(adj[cur as int]@.contains(nb));
                            assert(adjacent(active@, edges@, cur as int, nb as int));
                            lemma_connected_extend(active@, edges@, s as int, cur as int, nb as int);
                        }
                        if comp[nb].is_none() {
                            let ghost pre = stack@;
                            stack.push(nb);
                            proof {
                                assert forall|k: int| 0 <= k < j + 1 implies comp@[#[trigger] adj[cur as int][k] as int] == Some(cid)
                                    || stack@.contains(adj[cur as int][k]) by {
                                    if k == j {
                                        assert(stack@.last() == nb);
                                    } else if !(comp@[adj[cur as int][k] as int] == Some(cid)) {
                                        assert(pre.contains(adj[cur as int][k]));
                                        let m = choose|m: int| 0 <= m < pre.len() && pre[m] == adj[cur as int][k];
                                        assert(stack@[m] == adj[cur as int][k]);
                                    }
                                }
                            }
                        } else {
                            proof {
                                let c2 = comp@[nb as int]->0 as int;
                                if c2 != cid as int {
                                    // the neighbour sits in an earlier, closed cluster
                                    lemma_adjacent_symmetric(active@, edges@, cur as int, nb as int);
                                    assert(comp@[nb as int] == old_comp[nb as int]);
                                    assert(adjacent(active@, edges@, nb as int, cur as int));
                                    assert(old_comp[cur as int] == old_comp[nb as int]);
                                    assert(false);
                                }
                            }
                        }
                        j = j + 1;
                    }
                    proof {
                        assert forall|x: int, y: int|
                            0 <= x < n && #[trigger] comp@[x] == Some(cid) && #[trigger] adjacent(active@, edges@, x, y)
                                implies comp@[y] == Some(cid) || stack@.contains(y as usize) by {
                            if x == cur as int {
                                assert(adj[cur as int]@.contains(y as usize));
                                let k = choose|k: int| 0 <= k < adj[cur as int].len() && adj[cur as int][k] == y as usize;
                                assert(comp@[adj[cur as int][k] as int] == Some(cid)
                                    || stack@.contains(adj[cur as int][k]));
                            } else {
                                assert(old_comp[x] == Some(cid));
                                if !(comp@[y] == Some(cid)) && y != cur as int {
                                    assert(pre_pop.contains(y as usize));
                                    let m = choose|m: int| 0 <= m < pre_pop.len() && pre_pop[m] == y as usize;
                                    assert(m < old_stack.len());
                                    assert(stack@[m] == y as usize);
                                }
                            }
                        }
                    }
                } else {
                    proof {
                        assert forall|x: int, y: int|
                            0 <= x < n && #[trigger] comp@[x] == Some(cid) && #[trigger] adjacent(active@, edges@, x, y)
                                implies comp@[y] == Some(cid) || stack@.contains(y as usize) by {
                            if !(comp@[y] == Some(cid)) && y != cur as int {
                                assert(pre_pop.contains(y as usize));
                                let m = choose|m: int| 0 <= m < pre_pop.len() && pre_pop[m] == y as usize;
                                assert(stack@[m] == y as usize);
                            }
                        }
                    }
                }
            }
            proof {
                assert(cl[cid as int].contains(s));
                assert(members.len() > 0);
            }
            clusters.push(members);
            proof {
                assert(clusters@.map_values(|c: Vec<usize>| c@) =~= cl);
                assert forall|x: int, y: int|
                    0 <= x < comp.len() && #[trigger] comp@[x] is Some && comp@[x]->0 < cid + 1
                        && #[trigger] adjacent(active@, edges@, x, y) implies comp@[y] == comp@[x] by {
                    if comp@[x]->0 == cid {
                        assert(comp@[x] == Some(cid));
                    }
                }
            }
        }
        s = s + 1;
    }
    proof {
        let ghost cs = clusters@.map_values(|c: Vec<usize>| c@);
        assert(sum_lens(cs) + count_none(comp@) == n);
        assert forall|c: int| 0 <= c < cs.len() implies #[trigger] cs[c].len() > 0 by {
            assert(clusters[c].len() > 0);
        }
        lemma_partition_from_inv(active@, edges@, comp@, cs, seeds);
    }
    clusters
}

/// Distinct indices below `n` number at most `n`.
pub proof fn lemma_distinct_below_len(s: Seq<usize>, n: nat)
    requires
        forall|i: int, j: int| 0 <= i < j < s.len() ==> s[i] != s[j],
        forall|i: int| 0 <= i < s.len() ==> s[i] < n,
    ensures
        s.len() <= n,
{
    let m = s.map_values(|x: usize| x as int);
    assert(m.no_duplicates()) by {
        assert forall|i: int, j: int| 0 <= i < m.len() && 0 <= j < m.len() && i != j implies m[i] != m[j] by {
            if i < j {
                assert(s[i] != s[j]);
            } else {
                assert(s[j] != s[i]);
            }
        }
    }
    m.unique_seq_to_set();
    vstd::set_lib::lemma_int_range(0, n as int);
    assert(m.to_set().subset_of(vstd::set_lib::set_int_range(0, n as int))) by {
        assert forall|x: int| m.to_set().contains(x) implies vstd::set_lib::set_int_range(0, n as int).contains(x) by {
            let i = choose|i: int| 0 <= i < m.len() && m[i] == x;
            assert(s[i] < n);
        }
    }
    vstd::set_lib::lemma_len_subset(m.to_set(), vstd::set_lib::set_int_range(0, n as int));
}

} // verus!
