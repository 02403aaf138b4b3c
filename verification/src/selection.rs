//! Retention under a budget: nodes are ranked by a key, highest first and
//! the smaller index first among equal keys, and the best ones are kept.

use vstd::prelude::*;
use crate::labels::Layer;

verus! {

/// How often `u` occurs as an endpoint among `edges` (a self-loop counts twice).
pub open spec fn degree_of(edges: Seq<(u32, u32)>, u: int) -> nat
    decreases edges.len(),
{
    if edges.len() == 0 {
        0
    } else {
        let e = edges.last();
        degree_of(edges.drop_last(), u) + (if e.0 as int == u {
            1nat
        } else {
            0nat
        }) + (if e.1 as int == u {
            1nat
        } else {
            0nat
        })
    }
}

proof fn lemma_degree_bound(edges: Seq<(u32, u32)>, u: int)
    ensures
        degree_of(edges, u) <= 2 * edges.len(),
    decreases edges.len(),
{
    if edges.len() > 0 {
        lemma_degree_bound(edges.drop_last(), u);
    }
}

/// Degrees of nodes `0..n`; endpoints at or beyond `n` are skipped.
pub fn compute_degrees(n: usize, edges: &Vec<(u32, u32)>) -> (d: Vec<usize>)
    requires
        2 * edges.len() <= usize::MAX,
    ensures
        d.len() == n,
        forall|u: int| 0 <= u < n ==> #[trigger] d[u] == degree_of(edges@, u),
{
    let mut d: Vec<usize> = Vec::new();
    let mut i: usize = 0;
    while i < n
        invariant
            i <= n,
            d.len() == i,
            forall|u: int| 0 <= u < i ==> #[trigger] d[u] == 0,
        decreases n - i,
    {
        d.push(0);
        i = i + 1;
    }
    let mut k: usize = 0;
    while k < edges.len()
        invariant
            k <= edges.len(),
            2 * edges.len() <= usize::MAX,
            d.len() == n,
            forall|u: int| 0 <= u < n ==> #[trigger] d[u] == degree_of(edges@.take(k as int), u),
        decreases edges.len() - k,
    {
        let (a, b) = edges[k];
        assert(edges@.take(k + 1).drop_last() =~= edges@.take(k as int));
        proof {
            lemma_degree_bound(edges@.take(k as int), a as int);
            lemma_degree_bound(edges@.take(k as int), b as int);
        }
        if (a as usize) < n {
            d.set(a as usize, d[a as usize] + 1);
        }
        if (b as usize) < n {
            d.set(b as usize, d[b as usize] + 1);
        }
        k = k + 1;
    }
    assert(edges@.take(edges.len() as int) =~= edges@);
    d
}

/// `v` ranks before `u`: a higher key, or the same key and a smaller index.
pub open spec fn ranks_before(keys: Seq<usize>, v: int, u: int) -> bool {
    keys[v] > keys[u] || (keys[v] == keys[u] && v < u)
}

/// Every element of `sel` ranks before every later one.
pub open spec fn ranked(keys: Seq<usize>, sel: Seq<u32>) -> bool {
    forall|i: int, j: int|
        0 <= i < j < sel.len() ==> ranks_before(keys, #[trigger] sel[i] as int, #[trigger] sel[j] as int)
}

/// `sel` holds the `k` best nodes (or all of them, when there are fewer), best first.
pub open spec fn is_top_prefix(keys: Seq<usize>, sel: Seq<u32>, k: nat) -> bool {
    &&& sel.len() == (if k < keys.len() {
        k
    } else {
        keys.len()
    })
    &&& forall|i: int| 0 <= i < sel.len() ==> #[trigger] sel[i] < keys.len()
    &&& ranked(keys, sel)
    &&& forall|i: int, v: int|
        0 <= v < keys.len() && 0 <= i < sel.len() && #[trigger] ranks_before(keys, v, sel[i] as int)
            ==> sel.contains(v as u32)
}

/// Number of nodes below `m` whose key is at least `t`.
pub open spec fn count_at_least(keys: Seq<usize>, t: int, m: int) -> nat
    decreases m,
{
    if m <= 0 {
        0
    } else {
        count_at_least(keys, t, m - 1) + (if keys[m - 1] >= t {
            1nat
        } else {
            0nat
        })
    }
}

/// Number of nodes below `m` whose key is exactly `t`.
pub open spec fn count_equal(keys: Seq<usize>, t: int, m: int) -> nat
    decreases m,
{
    if m <= 0 {
        0
    } else {
        count_equal(keys, t, m - 1) + (if keys[m - 1] == t {
            1nat
        } else {
            0nat
        })
    }
}

proof fn lemma_count_split(keys: Seq<usize>, t: int, m: int)
    requires
        0 <= m <= keys.len(),
    ensures
        count_at_least(keys, t + 1, m) + count_equal(keys, t, m) == count_at_least(keys, t, m),
    decreases m,
{
    if m > 0 {
        lemma_count_split(keys, t, m - 1);
    }
}

proof fn lemma_count_gap(keys: Seq<usize>, a: int, b: int, m: int)
    requires
        0 <= m <= keys.len(),
        a <= b,
        forall|u: int| 0 <= u < m ==> !(a <= #[trigger] keys[u] < b),
    ensures
        count_at_least(keys, a, m) == count_at_least(keys, b, m),
    decreases m,
{
    if m > 0 {
        lemma_count_gap(keys, a, b, m - 1);
    }
}

proof fn lemma_count_bounds(keys: Seq<usize>, t: int, m: int)
    requires
        0 <= m <= keys.len(),
    ensures
        (forall|u: int| 0 <= u < m ==> #[trigger] keys[u] >= t) ==> count_at_least(keys, t, m) == m,
        (forall|u: int| 0 <= u < m ==> #[trigger] keys[u] < t) ==> count_at_least(keys, t, m) == 0,
    decreases m,
{
    if m > 0 {
        lemma_count_bounds(keys, t, m - 1);
    }
}

/// All nodes, best first: keys from high to low, and among equal keys the
/// smaller index first.
pub fn rank_by_key_desc(keys: &Vec<usize>) -> (order: Vec<u32>)
    requires
        keys.len() <= 0x1_0000_0000,
    ensures
        is_top_prefix(keys@, order@, keys.len() as nat),
        forall|u: u32| (u as int) < keys.len() ==> #[trigger] order@.contains(u),
{
    let n = keys.len();
    let mut order: Vec<u32> = Vec::new();
    if n == 0 {
        return order;
    }
    let mut level: usize = keys[0];
    let mut i: usize = 1;
    while i < n
        invariant
            1 <= i <= n,
            n == keys.len(),
            forall|u: int| 0 <= u < i ==> #[trigger] keys[u] <= level,
            exists|u: int| 0 <= u < n && #[trigger] keys[u] == level,
        decreases n - i,
    {
        if keys[i] > level {
            level = keys[i];
            assert(keys[i as int] == level);
        }
        i = i + 1;
    }
    let ghost mut lo: int = level + 1;
    proof {
        lemma_count_bounds(keys@, lo, n as int);
    }
    let mut more = true;
    while more
        invariant
            n == keys.len(),
            n <= 0x1_0000_0000,
            more ==> lo == level + 1,
            !more ==> forall|u: int| 0 <= u < n ==> #[trigger] keys[u] >= lo,
            order.len() == count_at_least(keys@, lo, n as int),
            forall|i: int| 0 <= i < order.len() ==> #[trigger] order[i] < n,
            forall|i: int| 0 <= i < order.len() ==> #[trigger] keys[order[i] as int] >= lo,
            forall|u: int| 0 <= u < n ==> (order@.contains(u as u32) <==> #[trigger] keys[u] >= lo),
            ranked(keys@, order@),
        decreases (if more { level as int + 1 } else { 0 }),
    {
        let ghost before = order@;
        let mut j: usize = 0;
        while j < n
            invariant
                n == keys.len(),
                n <= 0x1_0000_0000,
                lo == level + 1,
                0 <= j <= n,
                order.len() == count_at_least(keys@, lo, n as int) + count_equal(keys@, level as int, j as int),
                forall|i: int| 0 <= i < order.len() ==> #[trigger] order[i] < n,
                forall|i: int|
                    0 <= i < order.len() ==> (#[trigger] keys[order[i] as int] >= lo || (keys[order[i] as int]
                        == level && order[i] < j)),
                forall|u: int|
                    0 <= u < n ==> (order@.contains(u as u32) <==> (#[trigger] keys[u] >= lo || (keys[u]
                        == level && u < j))),
                ranked(keys@, order@),
            decreases n - j,
        {
            if keys[j] == level {
                let ghost old_order = order@;
                order.push(j as u32);
                proof {
                    assert forall|u: int| 0 <= u < n implies (order@.contains(u as u32) <==> (
                    #[trigger] keys[u] >= lo || (keys[u] == level && u < j + 1))) by {
                        if order@.contains(u as u32) {
                            let p = choose|p: int| 0 <= p < order@.len() && order@[p] == u as u32;
                            if p < old_order.len() {
                                assert(old_order.contains(u as u32));
                            }
                        }
                        if keys[u] >= lo || (keys[u] == level && u < j) {
                            assert(old_order.contains(u as u32));
                            let p = choose|p: int| 0 <= p < old_order.len() && old_order[p] == u as u32;
                            assert(order@[p] == u as u32);
                        }
                        if u == j {
                            assert(order@[order@.len() - 1] == u as u32);
                        }
                    }
                }
            }
            j = j + 1;
        }
        proof {
            lemma_count_split(keys@, level as int, n as int);
            lo = level as int;
        }
        let mut found = false;
        let mut next: usize = 0;
        let mut k: usize = 0;
        while k < n
            invariant
                n == keys.len(),
                0 <= k <= n,
                found ==> next < level,
                found ==> exists|u: int| 0 <= u < n && #[trigger] keys[u] == next,
                forall|u: int| 0 <= u < k && #[trigger] keys[u] < level ==> found && keys[u] <= next,
            decreases n - k,
        {
            if keys[k] < level && (!found || keys[k] > next) {
                next = keys[k];
                found = true;
                assert(keys[k as int] == next);
            }
            k = k + 1;
        }
        if found {
            proof {
                lemma_count_gap(keys@, next + 1, level as int, n as int);
                lo = next + 1;
            }
            level = next;
        } else {
            more = false;
        }
    }
    proof {
        lemma_count_bounds(keys@, lo, n as int);
        assert forall|u: u32| (u as int) < n implies #[trigger] order@.contains(u) by {
            assert(keys[u as int] >= lo);
            assert((u as int) as u32 == u);
        }
    }
    order
}

/// The `k` best nodes, best first (all nodes when `k` exceeds their number).
pub fn top_by_key(keys: &Vec<usize>, k: usize) -> (sel: Vec<u32>)
    requires
        keys.len() <= 0x1_0000_0000,
    ensures
        is_top_prefix(keys@, sel@, k as nat),
{
    let order = rank_by_key_desc(keys);
    let n = order.len();
    let mut sel: Vec<u32> = Vec::new();
    let mut i: usize = 0;
    while i < n && i < k
        invariant
            n == order.len(),
            n == keys.len(),
            i <= n,
            i <= k,
            sel@ == order@.take(i as int),
        decreases n - i,
    {
        sel.push(order[i]);
        i = i + 1;
        assert(sel@ =~= order@.take(i as int));
    }
    proof {
        assert forall|a: int| 0 <= a < sel.len() implies #[trigger] sel@[a] == order@[a] by {}
        assert(ranked(keys@, sel@));
        assert forall|a: int, v: int|
            0 <= v < keys.len() && 0 <= a < sel.len() && #[trigger] ranks_before(
                keys@,
                v,
                sel@[a] as int,
            ) implies sel@.contains(v as u32) by {
            assert((v as u32) as int == v);
            assert(order@.contains(v as u32));
            let p = choose|p: int| 0 <= p < order.len() && order@[p] == v as u32;
            if p >= sel.len() {
                assert(ranks_before(keys@, order@[a] as int, order@[p] as int));
            }
            assert(sel@[p] == v as u32);
        }
    }
    sel
}

/// The best-`k` selection is determined by the keys alone: two sequences that
/// both hold the `k` best nodes, best first, are the same sequence.
pub proof fn lemma_top_prefix_unique(keys: Seq<usize>, s: Seq<u32>, t: Seq<u32>, k: nat)
    requires
        is_top_prefix(keys, s, k),
        is_top_prefix(keys, t, k),
    ensures
        s == t,
{
    if s.len() > 0 {
        lemma_prefix_agrees(keys, s, t, k, s.len() - 1);
    }
    assert(s =~= t);
}

proof fn lemma_prefix_agrees(keys: Seq<usize>, s: Seq<u32>, t: Seq<u32>, k: nat, i: int)
    requires
        is_top_prefix(keys, s, k),
        is_top_prefix(keys, t, k),
        0 <= i < s.len(),
    ensures
        forall|p: int| 0 <= p <= i ==> s[p] == t[p],
    decreases i,
{
    if i > 0 {
        lemma_prefix_agrees(keys, s, t, k, i - 1);
    }
    if s[i] != t[i] {
        let a = s[i] as int;
        let b = t[i] as int;
        if ranks_before(keys, a, b) {
            assert(t.contains(a as u32));
            let p = choose|p: int| 0 <= p < t.len() && t[p] == a as u32;
            if p < i {
                assert(s[p] == t[p]);
                assert(ranks_before(keys, s[p] as int, s[i] as int));
            } else {
                assert(ranks_before(keys, t[i] as int, t[p] as int));
            }
        } else {
            assert(ranks_before(keys, b, a));
            assert(s.contains(b as u32));
            let p = choose|p: int| 0 <= p < s.len() && s[p] == b as u32;
            if p < i {
                assert(s[p] == t[p]);
                assert(ranks_before(keys, t[p] as int, t[i] as int));
            } else {
                assert(ranks_before(keys, s[i] as int, s[p] as int));
            }
        }
    }
}

/// Which part of the layer priority is switched off when scoring nodes.
#[derive(Clone, Copy, Debug, PartialEq, Eq, Structural)]
pub enum ScoreAblation {
    /// Rare before Core before Edge before Garbage.
    Full,
    /// Rare nodes are scored like Edge nodes.
    NoRarePriority,
    /// Core nodes are scored like Edge nodes.
    NoCorePriority,
    /// Garbage nodes are scored like Edge nodes.
    NoGarbageFilter,
}

/// The retention priority of a layer under an ablation.
pub open spec fn layer_priority(ablation: ScoreAblation, l: Layer) -> int {
    match l {
        Layer::Rare => if ablation == ScoreAblation::NoRarePriority {
            1
        } else {
            3
        },
        Layer::Core => if ablation == ScoreAblation::NoCorePriority {
            1
        } else {
            2
        },
        Layer::Edge => 1,
        Layer::Garbage => if ablation == ScoreAblation::NoGarbageFilter {
            1
        } else {
            0
        },
    }
}

/// The retention priority of a layer: Rare 3, Core 2, Edge 1, Garbage 0.
pub fn score_for_layer(l: Layer) -> (s: i32)
    ensures
        s == layer_priority(ScoreAblation::Full, l),
{
    match l {
        Layer::Rare => 3,
        Layer::Core => 2,
        Layer::Edge => 1,
        Layer::Garbage => 0,
    }
}

/// The retention priority of a layer with one part of the priority switched off.
pub fn ablation_score(ablation: ScoreAblation, l: Layer) -> (s: i32)
    ensures
        s == layer_priority(ablation, l),
        ablated_layer(ablation) != Some(l) ==> s == layer_priority(ScoreAblation::Full, l),
        ablated_layer(ablation) == Some(l) ==> s == layer_priority(ScoreAblation::Full, Layer::Edge),
        ablation != ScoreAblation::NoGarbageFilter && l == Layer::Garbage ==> s < layer_priority(
            ablation,
            Layer::Edge,
        ),
{
    proof {
        lemma_ablation_changes_one_layer(ablation, l);
    }
    match ablation {
        ScoreAblation::Full => score_for_layer(l),
        ScoreAblation::NoRarePriority => match l {
            Layer::Rare => 1,
            Layer::Core => 2,
            Layer::Edge => 1,
            Layer::Garbage => 0,
        },
        ScoreAblation::NoCorePriority => match l {
            Layer::Rare => 3,
            Layer::Core => 1,
            Layer::Edge => 1,
            Layer::Garbage => 0,
        },
        ScoreAblation::NoGarbageFilter => match l {
            Layer::Rare => 3,
            Layer::Core => 2,
            Layer::Edge => 1,
            Layer::Garbage => 1,
        },
    }
}

/// The layer an ablation switches the priority of, if any.
pub open spec fn ablated_layer(ablation: ScoreAblation) -> Option<Layer> {
    match ablation {
        ScoreAblation::Full => None,
        ScoreAblation::NoRarePriority => Some(Layer::Rare),
        ScoreAblation::NoCorePriority => Some(Layer::Core),
        ScoreAblation::NoGarbageFilter => Some(Layer::Garbage),
    }
}

/// The full priority orders Rare before Core before Edge before Garbage; an
/// ablation scores the one layer it names like Edge and leaves every other
/// layer's priority as the full one; so outside the garbage-filter ablation
/// Garbage stays strictly below Edge.
pub proof fn lemma_ablation_changes_one_layer(ablation: ScoreAblation, l: Layer)
    ensures
        layer_priority(ScoreAblation::Full, Layer::Rare) > layer_priority(ScoreAblation::Full, Layer::Core)
            > layer_priority(ScoreAblation::Full, Layer::Edge) > layer_priority(ScoreAblation::Full, Layer::Garbage),
        ablated_layer(ablation) != Some(l) ==> layer_priority(ablation, l) == layer_priority(ScoreAblation::Full, l),
        ablated_layer(ablation) == Some(l) ==> layer_priority(ablation, l) == layer_priority(
            ScoreAblation::Full,
            Layer::Edge,
        ),
        ablation != ScoreAblation::NoGarbageFilter ==> layer_priority(ablation, Layer::Garbage) < layer_priority(
            ablation,
            Layer::Edge,
        ),
{
}

/// Under every ablation but the garbage-filter one, layer-score selection
/// never keeps a Garbage node while leaving out an Edge node.
pub proof fn lemma_garbage_never_before_edge(layers: Seq<Layer>, ablation: ScoreAblation, sel: Seq<u32>, k: nat, g: int, e: int)
    requires
        is_top_prefix(layer_keys(layers, ablation), sel, k),
        layers.len() <= 0x1_0000_0000,
        ablation != ScoreAblation::NoGarbageFilter,
        0 <= g < layers.len(),
        0 <= e < layers.len(),
        layers[g] == Layer::Garbage,
        layers[e] == Layer::Edge,
        sel.contains(g as u32),
    ensures
        sel.contains(e as u32),
{
    lemma_ablation_changes_one_layer(ablation, Layer::Garbage);
    let keys = layer_keys(layers, ablation);
    let i = choose|i: int| 0 <= i < sel.len() && sel[i] == g as u32;
    assert((g as u32) as int == g);
    assert(keys[e] > keys[g]);
    assert(ranks_before(keys, e, sel[i] as int));
}

/// The layer that the assignments give node `u`: the last one naming it, or
/// Edge when none does.
pub open spec fn assigned_layer(assigned: Seq<(u32, Layer)>, u: int) -> Layer
    decreases assigned.len(),
{
    if assigned.len() == 0 {
        Layer::Edge
    } else if assigned.last().0 as int == u {
        assigned.last().1
    } else {
        assigned_layer(assigned.drop_last(), u)
    }
}

/// One layer per node `0..n`; nodes without an assignment are Edge, and
/// assignments to nodes at or beyond `n` are ignored.
pub fn dense_layers(n: usize, assigned: &Vec<(u32, Layer)>) -> (layers: Vec<Layer>)
    ensures
        layers.len() == n,
        forall|u: int| 0 <= u < n ==> #[trigger] layers[u] == assigned_layer(assigned@, u),
{
    let mut layers: Vec<Layer> = Vec::new();
    let mut i: usize = 0;
    while i < n
        invariant
            i <= n,
            layers.len() == i,
            forall|u: int| 0 <= u < i ==> #[trigger] layers[u] == Layer::Edge,
        decreases n - i,
    {
        layers.push(Layer::Edge);
        i = i + 1;
    }
    let mut k: usize = 0;
    while k < assigned.len()
        invariant
            k <= assigned.len(),
            layers.len() == n,
            forall|u: int|
                0 <= u < n ==> #[trigger] layers[u] == assigned_layer(assigned@.take(k as int), u),
        decreases assigned.len() - k,
    {
        let (id, l) = assigned[k];
        assert(assigned@.take(k + 1).drop_last() =~= assigned@.take(k as int));
        if (id as usize) < n {
            layers.set(id as usize, l);
        }
        k = k + 1;
    }
    assert(assigned@.take(assigned.len() as int) =~= assigned@);
    layers
}

/// The priority of every node under an ablation.
pub open spec fn layer_keys(layers: Seq<Layer>, ablation: ScoreAblation) -> Seq<usize> {
    Seq::new(layers.len(), |u: int| layer_priority(ablation, layers[u]) as usize)
}

/// The `budget` nodes of highest layer priority, the smaller index first
/// among equal priorities.
pub fn select_by_layer_score(layers: &Vec<Layer>, ablation: ScoreAblation, budget: usize) -> (sel:
    Vec<u32>)
    requires
        layers.len() <= 0x1_0000_0000,
    ensures
        is_top_prefix(layer_keys(layers@, ablation), sel@, budget as nat),
        ablation != ScoreAblation::NoGarbageFilter ==> forall|g: int, e: int|
            0 <= g < layers.len() && 0 <= e < layers.len() && layers[g] == Layer::Garbage && layers[e] == Layer::Edge
                && #[trigger] sel@.contains(g as u32) ==> #[trigger] sel@.contains(e as u32),
{
    let mut keys: Vec<usize> = Vec::new();
    let mut i: usize = 0;
    while i < layers.len()
        invariant
            i <= layers.len(),
            keys@ == layer_keys(layers@, ablation).take(i as int),
        decreases layers.len() - i,
    {
        let s = ablation_score(ablation, layers[i]);
        keys.push(s as usize);
        i = i + 1;
        assert(keys@ =~= layer_keys(layers@, ablation).take(i as int));
    }
    assert(keys@ =~= layer_keys(layers@, ablation));
    let sel = top_by_key(&keys, budget);
    proof {
        if ablation != ScoreAblation::NoGarbageFilter {
            assert forall|g: int, e: int|
                0 <= g < layers.len() && 0 <= e < layers.len() && layers[g] == Layer::Garbage && layers[e]
                    == Layer::Edge && #[trigger] sel@.contains(g as u32) implies #[trigger] sel@.contains(e as u32) by {
                lemma_garbage_never_before_edge(layers@, ablation, sel@, budget as nat, g, e);
            }
        }
    }
    sel
}

/// The `k` nodes of highest degree, the smaller index first among equal degrees.
pub fn top_k_by_degree(n: usize, edges: &Vec<(u32, u32)>, k: usize) -> (sel: Vec<u32>)
    requires
        2 * edges.len() <= usize::MAX,
        n <= 0x1_0000_0000,
    ensures
        is_top_prefix(Seq::new(n as nat, |u: int| degree_of(edges@, u) as usize), sel@, k as nat),
{
    let d = compute_degrees(n, edges);
    proof {
        assert forall|u: int| 0 <= u < n implies degree_of(edges@, u) <= usize::MAX by {
            lemma_degree_bound(edges@, u);
        }
        assert(d@ =~= Seq::new(n as nat, |u: int| degree_of(edges@, u) as usize));
    }
    top_by_key(&d, k)
}

/// The nodes below `m` in layer `l`, in increasing order.
pub open spec fn ids_in_layer(layers: Seq<Layer>, l: Layer, m: int) -> Seq<u32>
    decreases m,
{
    if m <= 0 {
        Seq::empty()
    } else {
        ids_in_layer(layers, l, m - 1) + (if layers[m - 1] == l {
            seq![(m - 1) as u32]
        } else {
            Seq::empty()
        })
    }
}

/// Rare nodes, then Core nodes, then Edge nodes, each in increasing order;
/// Garbage nodes are left out.
pub open spec fn priority_fill(layers: Seq<Layer>) -> Seq<u32> {
    ids_in_layer(layers, Layer::Rare, layers.len() as int) + ids_in_layer(
        layers,
        Layer::Core,
        layers.len() as int,
    ) + ids_in_layer(layers, Layer::Edge, layers.len() as int)
}

/// Number of nodes below `m` that are not Garbage.
pub open spec fn count_kept_layers(layers: Seq<Layer>, m: int) -> nat
    decreases m,
{
    if m <= 0 {
        0
    } else {
        count_kept_layers(layers, m - 1) + (if layers[m - 1] == Layer::Garbage {
            0nat
        } else {
            1nat
        })
    }
}

proof fn lemma_ids_in_layer(layers: Seq<Layer>, l: Layer, m: int)
    requires
        0 <= m <= layers.len(),
        layers.len() <= 0x1_0000_0000,
    ensures
        forall|i: int|
            0 <= i < ids_in_layer(layers, l, m).len() ==> #[trigger] ids_in_layer(layers, l, m)[i] < m
                && layers[ids_in_layer(layers, l, m)[i] as int] == l,
        forall|i: int, j: int|
            0 <= i < j < ids_in_layer(layers, l, m).len() ==> #[trigger] ids_in_layer(layers, l, m)[i]
                < #[trigger] ids_in_layer(layers, l, m)[j],
        forall|u: int|
            0 <= u < m && #[trigger] layers[u] == l ==> ids_in_layer(layers, l, m).contains(u as u32),
    decreases m,
{
    if m > 0 {
        lemma_ids_in_layer(layers, l, m - 1);
        let prev = ids_in_layer(layers, l, m - 1);
        let cur = ids_in_layer(layers, l, m);
        assert forall|u: int| 0 <= u < m && #[trigger] layers[u] == l implies cur.contains(
            u as u32,
        ) by {
            if u < m - 1 {
                let p = choose|p: int| 0 <= p < prev.len() && prev[p] == u as u32;
                assert(cur[p] == u as u32);
            } else {
                assert(cur[cur.len() - 1] == u as u32);
            }
        }
    }
}

proof fn lemma_fill_len(layers: Seq<Layer>, m: int)
    requires
        0 <= m <= layers.len(),
    ensures
        ids_in_layer(layers, Layer::Rare, m).len() + ids_in_layer(layers, Layer::Core, m).len()
            + ids_in_layer(layers, Layer::Edge, m).len() == count_kept_layers(layers, m),
        count_kept_layers(layers, m) <= m,
    decreases m,
{
    if m > 0 {
        lemma_fill_len(layers, m - 1);
    }
}

/// Appends the nodes of layer `l`, in increasing order.
fn push_layer(layers: &Vec<Layer>, l: Layer, out: &mut Vec<u32>)
    requires
        layers.len() <= 0x1_0000_0000,
    ensures
        final(out)@ == old(out)@ + ids_in_layer(layers@, l, layers.len() as int),
{
    let ghost start = out@;
    let mut i: usize = 0;
    while i < layers.len()
        invariant
            i <= layers.len(),
            layers.len() <= 0x1_0000_0000,
            out@ == start + ids_in_layer(layers@, l, i as int),
        decreases layers.len() - i,
    {
        if layers[i] == l {
            out.push(i as u32);
        }
        i = i + 1;
        assert(out@ =~= start + ids_in_layer(layers@, l, i as int));
    }
}

/// Keeps up to `keep` nodes: Rare first, then Core, then Edge, each in
/// increasing order; Garbage nodes are never kept.
pub fn kdf_select_linear(layers: &Vec<Layer>, keep: usize) -> (sel: Vec<u32>)
    requires
        layers.len() <= 0x1_0000_0000,
    ensures
        sel@ == priority_fill(layers@).take(
            if keep < priority_fill(layers@).len() {
                keep as int
            } else {
                priority_fill(layers@).len() as int
            },
        ),
        keep <= count_kept_layers(layers@, layers.len() as int) ==> is_top_prefix(
            layer_keys(layers@, ScoreAblation::Full),
            sel@,
            keep as nat,
        ),
        forall|i: int|
            0 <= i < sel.len() ==> (#[trigger] sel@[i] as int) < layers.len() && layers@[sel@[i] as int]
                != Layer::Garbage,
{
    let mut fill: Vec<u32> = Vec::new();
    push_layer(layers, Layer::Rare, &mut fill);
    push_layer(layers, Layer::Core, &mut fill);
    push_layer(layers, Layer::Edge, &mut fill);
    assert(fill@ =~= priority_fill(layers@));
    let mut sel: Vec<u32> = Vec::new();
    let mut i: usize = 0;
    while i < fill.len() && i < keep
        invariant
            i <= fill.len(),
            i <= keep,
            sel@ == fill@.take(i as int),
        decreases fill.len() - i,
    {
        sel.push(fill[i]);
        i = i + 1;
        assert(sel@ =~= fill@.take(i as int));
    }
    proof {
        lemma_fill_members(layers@);
        assert forall|i: int| 0 <= i < sel.len() implies (#[trigger] sel@[i] as int) < layers.len()
            && layers@[sel@[i] as int] != Layer::Garbage by {
            assert(sel@[i] == fill@[i]);
        }
        if keep <= count_kept_layers(layers@, layers.len() as int) {
            lemma_fill_len(layers@, layers.len() as int);
            assert(fill.len() == count_kept_layers(layers@, layers.len() as int));
            assert(i == keep);
            lemma_fill_is_top_prefix(layers@, keep as nat);
        }
    }
    sel
}

proof fn lemma_fill_members(layers: Seq<Layer>)
    requires
        layers.len() <= 0x1_0000_0000,
    ensures
        forall|i: int|
            0 <= i < priority_fill(layers).len() ==> (#[trigger] priority_fill(layers)[i] as int)
                < layers.len() && layers[priority_fill(layers)[i] as int] != Layer::Garbage,
{
    let n = layers.len() as int;
    let r = ids_in_layer(layers, Layer::Rare, n);
    let c = ids_in_layer(layers, Layer::Core, n);
    let e = ids_in_layer(layers, Layer::Edge, n);
    let f = priority_fill(layers);
    lemma_ids_in_layer(layers, Layer::Rare, n);
    lemma_ids_in_layer(layers, Layer::Core, n);
    lemma_ids_in_layer(layers, Layer::Edge, n);
    assert forall|i: int| 0 <= i < f.len() implies (#[trigger] f[i] as int) < n && layers[f[i] as int]
        != Layer::Garbage by {
        if i < r.len() {
            assert(f[i] == r[i]);
        } else if i < r.len() + c.len() {
            assert(f[i] == c[i - r.len()]);
        } else {
            assert(f[i] == e[i - r.len() - c.len()]);
        }
    }
}

proof fn lemma_fill_is_top_prefix(layers: Seq<Layer>, keep: nat)
    requires
        layers.len() <= 0x1_0000_0000,
        keep <= count_kept_layers(layers, layers.len() as int),
    ensures
        is_top_prefix(
            layer_keys(layers, ScoreAblation::Full),
            priority_fill(layers).take(keep as int),
            keep,
        ),
{
    let n = layers.len() as int;
    let keys = layer_keys(layers, ScoreAblation::Full);
    let r = ids_in_layer(layers, Layer::Rare, n);
    let c = ids_in_layer(layers, Layer::Core, n);
    let e = ids_in_layer(layers, Layer::Edge, n);
    let f = priority_fill(layers);
    lemma_ids_in_layer(layers, Layer::Rare, n);
    lemma_ids_in_layer(layers, Layer::Core, n);
    lemma_ids_in_layer(layers, Layer::Edge, n);
    lemma_fill_len(layers, n);
    assert(f.len() == r.len() + c.len() + e.len());
    // where each position of the fill comes from
    assert forall|i: int| 0 <= i < f.len() implies #[trigger] f[i] < n && layers[f[i] as int]
        != Layer::Garbage && keys[f[i] as int] == layer_priority(
        ScoreAblation::Full,
        layers[f[i] as int],
    ) && (i < r.len() ==> f[i] == r[i] && layers[f[i] as int] == Layer::Rare) && (r.len() <= i
        < r.len() + c.len() ==> f[i] == c[i - r.len()] && layers[f[i] as int] == Layer::Core) && (
    r.len() + c.len() <= i ==> f[i] == e[i - r.len() - c.len()] && layers[f[i] as int]
        == Layer::Edge) by {
        if i < r.len() {
            assert(f[i] == r[i]);
        } else if i < r.len() + c.len() {
            assert(f[i] == c[i - r.len()]);
        } else {
            assert(f[i] == e[i - r.len() - c.len()]);
        }
    }
    assert(ranked(keys, f)) by {
        assert forall|i: int, j: int| 0 <= i < j < f.len() implies ranks_before(
            keys,
            #[trigger] f[i] as int,
            #[trigger] f[j] as int,
        ) by {
            if i < r.len() && j < r.len() {
                assert(r[i] < r[j]);
            } else if r.len() <= i < r.len() + c.len() && r.len() <= j < r.len() + c.len() {
                assert(c[i - r.len()] < c[j - r.len()]);
            } else if r.len() + c.len() <= i {
                assert(e[i - r.len() - c.len()] < e[j - r.len() - c.len()]);
            }
        }
    }
    // every node that is not Garbage is in the fill
    assert forall|u: int| 0 <= u < n && layers[u] != Layer::Garbage implies #[trigger] f.contains(
        u as u32,
    ) by {
        if layers[u] == Layer::Rare {
            let p = choose|p: int| 0 <= p < r.len() && r[p] == u as u32;
            assert(f[p] == u as u32);
        } else if layers[u] == Layer::Core {
            let p = choose|p: int| 0 <= p < c.len() && c[p] == u as u32;
            assert(f[r.len() + p] == u as u32);
        } else {
            let p = choose|p: int| 0 <= p < e.len() && e[p] == u as u32;
            assert(f[r.len() + c.len() + p] == u as u32);
        }
    }
    let sel = f.take(keep as int);
    assert(keys.len() == n);
    assert(sel.len() == keep);
    assert forall|i: int| 0 <= i < sel.len() implies #[trigger] sel[i] == f[i] by {}
    assert(ranked(keys, sel));
    assert forall|i: int| 0 <= i < sel.len() implies #[trigger] sel[i] < keys.len() by {
        assert(f[i] < n);
    }
    assert forall|i: int, v: int|
        0 <= v < keys.len() && 0 <= i < sel.len() && #[trigger] ranks_before(
            keys,
            v,
            sel[i] as int,
        ) implies sel.contains(v as u32) by {
        assert(f[i] == sel[i]);
        assert(layers[v] != Layer::Garbage);
        assert(f.contains(v as u32));
        let p = choose|p: int| 0 <= p < f.len() && f[p] == v as u32;
        assert((v as u32) as int == v);
        if p >= i {
            assert(ranks_before(keys, f[i] as int, f[p] as int));
        }
        assert(sel[p] == v as u32);
    }
}

/// The linear priority fill and the priority sort agree: when the budget
/// does not exceed the nodes outside Garbage, the best-`keep` nodes by layer
/// priority are exactly the first `keep` of Rare, then Core, then Edge.
pub proof fn lemma_linear_fill_matches_sorted(layers: Seq<Layer>, keep: nat, sorted: Seq<u32>)
    requires
        layers.len() <= 0x1_0000_0000,
        keep <= count_kept_layers(layers, layers.len() as int),
        is_top_prefix(layer_keys(layers, ScoreAblation::Full), sorted, keep),
    ensures
        sorted == priority_fill(layers).take(keep as int),
{
    lemma_fill_is_top_prefix(layers, keep);
    lemma_top_prefix_unique(
        layer_keys(layers, ScoreAblation::Full),
        sorted,
        priority_fill(layers).take(keep as int),
        keep,
    );
}

} // verus!
