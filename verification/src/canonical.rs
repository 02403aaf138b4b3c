//! Canonical retention: every Core and Rare node is kept, Garbage is
//! dropped, and of the Edge nodes that share one neighbour set only the
//! first is kept, as the representative of its cluster.

use vstd::prelude::*;
use crate::labels::Layer;

verus! {

/// Whether edge `e` joins `a` and `b`, in either direction.
pub open spec fn joins(e: (u32, u32), a: int, b: int) -> bool {
    (e.0 as int == a && e.1 as int == b) || (e.0 as int == b && e.1 as int == a)
}

/// The neighbours of `a` among the first `k` edges.
pub open spec fn neighbors_upto(edges: Seq<(u32, u32)>, k: int, a: int) -> Set<u32> {
    Set::new(|x: u32| exists|i: int| 0 <= i < k && #[trigger] joins(edges[i], a, x as int))
}

/// The neighbours of `a`.
pub open spec fn neighbor_set(edges: Seq<(u32, u32)>, a: int) -> Set<u32> {
    neighbors_upto(edges, edges.len() as int, a)
}

/// Whether the values of `s` strictly increase.
pub open spec fn strictly_increasing(s: Seq<u32>) -> bool {
    forall|i: int, j: int| 0 <= i < j < s.len() ==> #[trigger] s[i] < #[trigger] s[j]
}

/// Inserts `x` into a strictly increasing row, unless it is there already.
fn sorted_insert(row: &mut Vec<u32>, x: u32)
    requires
        strictly_increasing(old(row)@),
    ensures
        strictly_increasing(final(row)@),
        final(row)@.to_set() == old(row)@.to_set().insert(x),
{
    let ghost s = row@;
    let mut p: usize = 0;
    while p < row.len() && row[p] < x
        invariant
            row@ == s,
            p <= row.len(),
            forall|i: int| 0 <= i < p ==> #[trigger] row[i] < x,
        decreases row.len() - p,
    {
        p = p + 1;
    }
    if p < row.len() && row[p] == x {
        assert(s.to_set().insert(x) =~= s.to_set()) by {
            assert(s.to_set().contains(s[p as int]));
        }
        return;
    }
    row.insert(p, x);
    let ghost t = row@;
    assert(t == s.insert(p as int, x));
    assert forall|i: int, j: int| 0 <= i < j < t.len() implies #[trigger] t[i] < #[trigger] t[j] by {
        if j < p {
        } else if j == p {
        } else if i < p {
            assert(t[j] == s[j - 1]);
            assert(s[p as int] >= x);
            if j - 1 > p {
                assert(s[p as int] < s[j - 1]);
            }
        } else if i == p {
            assert(t[j] == s[j - 1]);
            assert(s[p as int] > x);
            if j - 1 > p {
                assert(s[p as int] < s[j - 1]);
            }
        } else {
            assert(t[i] == s[i - 1]);
            assert(t[j] == s[j - 1]);
        }
    }
    assert forall|y: u32| t.to_set().contains(y) <==> s.to_set().insert(x).contains(y) by {
        if t.to_set().contains(y) {
            let i = choose|i: int| 0 <= i < t.len() && t[i] == y;
            if i > p {
                assert(t[i] == s[i - 1]);
            } else if i < p {
                assert(t[i] == s[i]);
            }
        }
        if s.to_set().contains(y) {
            let i = choose|i: int| 0 <= i < s.len() && s[i] == y;
            if i >= p {
                assert(t[i + 1] == s[i]);
            } else {
                assert(t[i] == s[i]);
            }
        }
        if y == x {
            assert(t[p as int] == x);
        }
    }
    assert(t.to_set() =~= s.to_set().insert(x));
}

/// One more edge adds its far end to the neighbours of each of its ends.
proof fn lemma_neighbors_step(edges: Seq<(u32, u32)>, k: int, a: int)
    requires
        0 <= k < edges.len(),
    ensures
        ({
            let e = edges[k];
            let s = neighbors_upto(edges, k, a);
            let s1 = if e.0 as int == a { s.insert(e.1) } else { s };
            let s2 = if e.1 as int == a { s1.insert(e.0) } else { s1 };
            neighbors_upto(edges, k + 1, a) == s2
        }),
{
    let e = edges[k];
    let s = neighbors_upto(edges, k, a);
    let s1 = if e.0 as int == a { s.insert(e.1) } else { s };
    let s2 = if e.1 as int == a { s1.insert(e.0) } else { s1 };
    assert forall|x: u32| neighbors_upto(edges, k + 1, a).contains(x) <==> s2.contains(x) by {
        if neighbors_upto(edges, k + 1, a).contains(x) {
            let i = choose|i: int| 0 <= i < k + 1 && #[trigger] joins(edges[i], a, x as int);
            if i < k {
                assert(s.contains(x));
            }
        }
        if s.contains(x) {
            let i = choose|i: int| 0 <= i < k && #[trigger] joins(edges[i], a, x as int);
            assert(joins(edges[i], a, x as int));
        }
        if e.0 as int == a && x == e.1 {
            assert(joins(edges[k], a, x as int));
        }
        if e.1 as int == a && x == e.0 {
            assert(joins(edges[k], a, x as int));
        }
    }
    assert(neighbors_upto(edges, k + 1, a) =~= s2);
}

/// The neighbour rows of nodes `0..n`, each strictly increasing; ends at
/// or beyond `n` get no row but still count as neighbours.
fn neighbor_rows(n: usize, edges: &Vec<(u32, u32)>) -> (rows: Vec<Vec<u32>>)
    ensures
        rows.len() == n,
        forall|u: int|
            0 <= u < n ==> {
                &&& strictly_increasing(#[trigger] rows[u]@)
                &&& rows[u]@.to_set() == neighbor_set(edges@, u)
            },
{
    let mut rows: Vec<Vec<u32>> = Vec::new();
    let mut u: usize = 0;
    while u < n
        invariant
            u <= n,
            rows.len() == u,
            forall|w: int| 0 <= w < u ==> (#[trigger] rows[w])@ == Seq::<u32>::empty(),
        decreases n - u,
    {
        rows.push(Vec::new());
        u = u + 1;
    }
    proof {
        assert forall|w: int| 0 <= w < n implies (#[trigger] rows[w])@.to_set() == neighbors_upto(
            edges@,
            0,
            w,
        ) by {
            assert(rows[w]@.to_set() =~= neighbors_upto(edges@, 0, w));
        }
    }
    let mut k: usize = 0;
    while k < edges.len()
        invariant
            k <= edges.len(),
            rows.len() == n,
            forall|w: int|
                0 <= w < n ==> {
                    &&& strictly_increasing(#[trigger] rows[w]@)
                    &&& rows[w]@.to_set() == neighbors_upto(edges@, k as int, w)
                },
        decreases edges.len() - k,
    {
        let (a, b) = edges[k];
        let ghost before = rows@;
        if (a as usize) < n {
            sorted_insert(&mut rows[a as usize], b);
        }
        let ghost mid = rows@;
        if (b as usize) < n {
            sorted_insert(&mut rows[b as usize], a);
        }
        proof {
            assert forall|w: int| 0 <= w < n implies {
                &&& strictly_increasing(#[trigger] rows[w]@)
                &&& rows[w]@.to_set() == neighbors_upto(edges@, k + 1, w)
            } by {
                lemma_neighbors_step(edges@, k as int, w);
                if w != a as int {
                    assert(mid[w] == before[w]);
                }
                if w != b as int {
                    assert(rows[w] == mid[w]);
                }
            }
        }
        k = k + 1;
    }
    rows
}

/// Two strictly increasing sequences with the same values are equal.
proof fn lemma_increasing_unique(s: Seq<u32>, t: Seq<u32>)
    requires
        strictly_increasing(s),
        strictly_increasing(t),
        s.to_set() == t.to_set(),
    ensures
        s == t,
    decreases s.len(),
{
    if s.len() == 0 {
        if t.len() > 0 {
            assert(t.to_set().contains(t[0]));
        }
        assert(s =~= t);
    } else if t.len() == 0 {
        assert(s.to_set().contains(s[0]));
    } else {
        assert(s.to_set().contains(s[0]));
        assert(t.to_set().contains(t[0]));
        let i = choose|i: int| 0 <= i < t.len() && t[i] == s[0];
        let j = choose|j: int| 0 <= j < s.len() && s[j] == t[0];
        if i > 0 {
            assert(t[0] < t[i]);
        }
        if j > 0 {
            assert(s[0] < s[j]);
        }
        assert(s[0] == t[0]);
        let s1 = s.drop_first();
        let t1 = t.drop_first();
        assert forall|y: u32| s1.to_set().contains(y) <==> t1.to_set().contains(y) by {
            if s1.to_set().contains(y) {
                let a = choose|a: int| 0 <= a < s1.len() && s1[a] == y;
                assert(s[a + 1] == y);
                assert(s[0] < s[a + 1]);
                assert(t.to_set().contains(y));
                let b = choose|b: int| 0 <= b < t.len() && t[b] == y;
                assert(b != 0);
                assert(t1[b - 1] == y);
            }
            if t1.to_set().contains(y) {
                let a = choose|a: int| 0 <= a < t1.len() && t1[a] == y;
                assert(t[a + 1] == y);
                assert(t[0] < t[a + 1]);
                assert(s.to_set().contains(y));
                let b = choose|b: int| 0 <= b < s.len() && s[b] == y;
                assert(b != 0);
                assert(s1[b - 1] == y);
            }
        }
        assert(s1.to_set() =~= t1.to_set());
        lemma_increasing_unique(s1, t1);
        assert forall|k: int| 0 <= k < s.len() implies s[k] == t[k] by {
            if k > 0 {
                assert(s[k] == s1[k - 1]);
                assert(t[k] == t1[k - 1]);
            }
        }
        assert(s =~= t);
    }
}

/// An Edge node is kept exactly when no representative chosen before it
/// has its neighbour row.
proof fn lemma_edge_keep(layers: Seq<Layer>, edges: Seq<(u32, u32)>, rows: Seq<Vec<u32>>, reps: Seq<u32>, u: int)
    requires
        0 <= u < layers.len(),
        layers.len() == rows.len(),
        layers[u] == Layer::Edge,
        rows_hold_neighbors(rows, edges),
        reps_cover(layers, rows, reps, u),
    ensures
        canonical_keeps(layers, edges, u) == !has_rep(rows, reps, u),
{
    if has_rep(rows, reps, u) {
        let i = choose|i: int| 0 <= i < reps.len() && rows[reps[i] as int]@ == rows[u]@;
        let r = reps[i] as int;
        assert(rows[r]@.to_set() == neighbor_set(edges, r));
        assert(rows[u]@.to_set() == neighbor_set(edges, u));
        assert(neighbor_set(edges, r) == neighbor_set(edges, u));
        assert(!canonical_keeps(layers, edges, u));
    }
    if !canonical_keeps(layers, edges, u) {
        let j = choose|j: int|
            0 <= j < u && layers[j] == Layer::Edge && !(#[trigger] neighbor_set(edges, j) != neighbor_set(edges, u));
        assert(rows[j]@.to_set() == neighbor_set(edges, j));
        assert(rows[u]@.to_set() == neighbor_set(edges, u));
        lemma_increasing_unique(rows[j]@, rows[u]@);
        assert(has_rep(rows, reps, j));
        let i = choose|i: int| 0 <= i < reps.len() && #[trigger] rows[reps[i] as int]@ == rows[j]@;
        assert(rows[reps[i] as int]@ == rows[u]@);
    }
}

/// Whether two rows hold the same values in the same order.
fn rows_equal(a: &Vec<u32>, b: &Vec<u32>) -> (r: bool)
    ensures
        r == (a@ == b@),
{
    if a.len() != b.len() {
        return false;
    }
    let mut i: usize = 0;
    while i < a.len()
        invariant
            a.len() == b.len(),
            i <= a.len(),
            forall|j: int| 0 <= j < i ==> a[j] == b[j],
        decreases a.len() - i,
    {
        if a[i] != b[i] {
            return false;
        }
        i = i + 1;
    }
    assert(a@ =~= b@);
    true
}

/// Whether canonical retention keeps node `u`: Core and Rare always,
/// Garbage never, an Edge node when no Edge node before it has the same
/// neighbours.
pub open spec fn canonical_keeps(layers: Seq<Layer>, edges: Seq<(u32, u32)>, u: int) -> bool {
    match layers[u] {
        Layer::Core => true,
        Layer::Rare => true,
        Layer::Edge => forall|j: int|
            0 <= j < u && layers[j] == Layer::Edge ==> #[trigger] neighbor_set(edges, j) != neighbor_set(
                edges,
                u,
            ),
        Layer::Garbage => false,
    }
}

/// The KDF selector: classified nodes in, kept nodes out.
pub struct KdfSel;

impl KdfSel {
    /// The selector's display name.
    pub fn name(&self) -> (s: &'static str)
        ensures
            s@ == "KDF"@,
    {
        "KDF"
    }

    /// Keeps every Core and Rare node, drops Garbage, and keeps of the Edge
    /// nodes with one neighbour set only the smallest id. `layers[u]` is
    /// the layer of node `u`; the kept ids come out in increasing order.
    pub fn select(&self, edges: &Vec<(u32, u32)>, layers: &Vec<Layer>) -> (sel: Vec<u32>)
        requires
            layers.len() <= 0x1_0000_0000,
        ensures
            strictly_increasing(sel@),
            forall|i: int| 0 <= i < sel.len() ==> (#[trigger] sel[i] as int) < layers.len(),
            forall|u: int|
                0 <= u < layers.len() ==> (sel@.contains(u as u32) <==> #[trigger] canonical_keeps(
                    layers@,
                    edges@,
                    u,
                )),
    {
        let n = layers.len();
        let rows = neighbor_rows(n, edges);
        let mut sel: Vec<u32> = Vec::new();
        let mut reps: Vec<u32> = Vec::new();
        let mut u: usize = 0;
        while u < n
            invariant
                n == layers.len(),
                n <= 0x1_0000_0000,
                u <= n,
                rows.len() == n,
                rows_hold_neighbors(rows@, edges@),
                selected_upto(layers@, edges@, sel@, u as int),
                reps_cover(layers@, rows@, reps@, u as int),
            decreases n - u,
        {
            let ghost before = sel@;
            match layers[u] {
                Layer::Core | Layer::Rare => {
                    sel.push(u as u32);
                },
                Layer::Edge => {
                    let found = find_rep(&rows, &reps, u);
                    proof {
                        lemma_edge_keep(layers@, edges@, rows@, reps@, u as int);
                    }
                    let ghost old_reps = reps@;
                    if !found {
                        sel.push(u as u32);
                        reps.push(u as u32);
                    }
                    proof {
                        lemma_reps_extend(layers@, rows@, old_reps, reps@, u as int, found);
                    }
                },
                Layer::Garbage => {},
            }
            proof {
                if layers[u as int] != Layer::Edge {
                    lemma_reps_skip(layers@, rows@, reps@, u as int);
                }
                lemma_select_step(layers@, edges@, before, sel@, u as int);
            }
            u = u + 1;
        }
        sel
    }
}

/// Every row is strictly increasing and holds the neighbours of its node.
pub open spec fn rows_hold_neighbors(rows: Seq<Vec<u32>>, edges: Seq<(u32, u32)>) -> bool {
    forall|w: int|
        0 <= w < rows.len() ==> {
            &&& strictly_increasing(#[trigger] rows[w]@)
            &&& rows[w]@.to_set() == neighbor_set(edges, w)
        }
}

/// `sel` lists, increasing, the nodes before `u` that canonical retention
/// keeps.
pub open spec fn selected_upto(layers: Seq<Layer>, edges: Seq<(u32, u32)>, sel: Seq<u32>, u: int) -> bool {
    &&& strictly_increasing(sel)
    &&& forall|i: int| 0 <= i < sel.len() ==> (#[trigger] sel[i] as int) < u
    &&& forall|w: int| 0 <= w < u ==> (sel.contains(w as u32) <==> #[trigger] canonical_keeps(layers, edges, w))
}

/// Every Edge node before `u` shares its row with a representative, and
/// every representative is an Edge node before `u`.
pub open spec fn reps_cover(layers: Seq<Layer>, rows: Seq<Vec<u32>>, reps: Seq<u32>, u: int) -> bool {
    &&& forall|i: int| 0 <= i < reps.len() ==> (#[trigger] reps[i] as int) < u && layers[reps[i] as int] == Layer::Edge
    &&& forall|w: int| 0 <= w < u && layers[w] == Layer::Edge ==> #[trigger] has_rep(rows, reps, w)
}

/// Whether a representative has the row of node `w`.
pub open spec fn has_rep(rows: Seq<Vec<u32>>, reps: Seq<u32>, w: int) -> bool {
    exists|i: int| 0 <= i < reps.len() && #[trigger] rows[reps[i] as int]@ == rows[w]@
}

/// Whether a representative has the row of node `u`.
fn find_rep(rows: &Vec<Vec<u32>>, reps: &Vec<u32>, u: usize) -> (found: bool)
    requires
        u < rows.len(),
        forall|q: int| 0 <= q < reps.len() ==> (#[trigger] reps[q] as int) < rows.len(),
    ensures
        found == has_rep(rows@, reps@, u as int),
{
    let mut i: usize = 0;
    while i < reps.len()
        invariant
            i <= reps.len(),
            u < rows.len(),
            forall|q: int| 0 <= q < reps.len() ==> (#[trigger] reps[q] as int) < rows.len(),
            forall|q: int| 0 <= q < i ==> rows[reps[q] as int]@ != rows[u as int]@,
        decreases reps.len() - i,
    {
        if rows_equal(&rows[reps[i] as usize], &rows[u]) {
            return true;
        }
        i = i + 1;
    }
    false
}

proof fn lemma_reps_extend(
    layers: Seq<Layer>,
    rows: Seq<Vec<u32>>,
    old_reps: Seq<u32>,
    reps: Seq<u32>,
    u: int,
    found: bool,
)
    requires
        0 <= u < layers.len(),
        layers[u] == Layer::Edge,
        reps_cover(layers, rows, old_reps, u),
        found == has_rep(rows, old_reps, u),
        reps == (if found { old_reps } else { old_reps.push(u as u32) }),
        u < 0x1_0000_0000,
        u < rows.len(),
    ensures
        reps_cover(layers, rows, reps, u + 1),
{
    assert forall|w: int| 0 <= w < u + 1 && layers[w] == Layer::Edge implies #[trigger] has_rep(rows, reps, w) by {
        if w < u {
            assert(has_rep(rows, old_reps, w));
            let i = choose|i: int| 0 <= i < old_reps.len() && #[trigger] rows[old_reps[i] as int]@ == rows[w]@;
            assert(reps[i] == old_reps[i]);
            assert(rows[reps[i] as int]@ == rows[w]@);
        } else if found {
            let i = choose|i: int| 0 <= i < old_reps.len() && rows[old_reps[i] as int]@ == rows[u]@;
            assert(reps[i] == old_reps[i]);
            assert(rows[reps[i] as int]@ == rows[w]@);
        } else {
            let i = old_reps.len() as int;
            assert(reps[i] == u as u32);
            assert(rows[reps[i] as int]@ == rows[w]@);
        }
    }
    assert forall|i: int| 0 <= i < reps.len() implies (#[trigger] reps[i] as int) < u + 1 && layers[reps[i] as int]
        == Layer::Edge by {
        if i < old_reps.len() {
            assert(reps[i] == old_reps[i]);
        }
    }
}

proof fn lemma_reps_skip(layers: Seq<Layer>, rows: Seq<Vec<u32>>, reps: Seq<u32>, u: int)
    requires
        0 <= u < layers.len(),
        layers[u] != Layer::Edge,
        reps_cover(layers, rows, reps, u),
    ensures
        reps_cover(layers, rows, reps, u + 1),
{
    assert forall|w: int| 0 <= w < u + 1 && layers[w] == Layer::Edge implies #[trigger] has_rep(rows, reps, w) by {
        assert(w < u);
    }
}

proof fn lemma_select_step(layers: Seq<Layer>, edges: Seq<(u32, u32)>, before: Seq<u32>, sel: Seq<u32>, u: int)
    requires
        0 <= u < layers.len(),
        u < 0x1_0000_0000,
        selected_upto(layers, edges, before, u),
        sel == (if canonical_keeps(layers, edges, u) { before.push(u as u32) } else { before }),
    ensures
        selected_upto(layers, edges, sel, u + 1),
{
    assert forall|i: int, j: int| 0 <= i < j < sel.len() implies #[trigger] sel[i] < #[trigger] sel[j] by {
        if j == before.len() {
            assert(sel[i] == before[i]);
        }
    }
    assert forall|i: int| 0 <= i < sel.len() implies (#[trigger] sel[i] as int) < u + 1 by {
        if i < before.len() {
            assert(sel[i] == before[i]);
        }
    }
    assert forall|w: int| 0 <= w < u + 1 implies (sel.contains(w as u32) <==> #[trigger] canonical_keeps(
        layers,
        edges,
        w,
    )) by {
        if sel.contains(w as u32) {
            let i = choose|i: int| 0 <= i < sel.len() && sel[i] == w as u32;
            if i < before.len() {
                assert(before[i] == w as u32);
                assert(before.contains(w as u32));
            }
        }
        if w < u && before.contains(w as u32) {
            let i = choose|i: int| 0 <= i < before.len() && before[i] == w as u32;
            assert(sel[i] == w as u32);
        }
        if w == u && canonical_keeps(layers, edges, u) {
            assert(sel[before.len() as int] == u as u32);
        }
        if w == u && before.contains(u as u32) {
            let i = choose|i: int| 0 <= i < before.len() && before[i] == u as u32;
        }
    }
}

/// Every Edge node is represented: some kept Edge node at or before it has
/// its neighbours.
pub proof fn lemma_every_edge_node_represented(layers: Seq<Layer>, edges: Seq<(u32, u32)>, u: int)
    requires
        0 <= u < layers.len(),
        layers[u] == Layer::Edge,
    ensures
        exists|r: int|
            0 <= r <= u && layers[r] == Layer::Edge && #[trigger] canonical_keeps(layers, edges, r)
                && neighbor_set(edges, r) == neighbor_set(edges, u),
    decreases u,
{
    if canonical_keeps(layers, edges, u) {
        assert(canonical_keeps(layers, edges, u));
    } else {
        let j = choose|j: int|
            0 <= j < u && layers[j] == Layer::Edge && !(#[trigger] neighbor_set(edges, j) != neighbor_set(edges, u));
        lemma_every_edge_node_represented(layers, edges, j);
        let r = choose|r: int|
            0 <= r <= j && layers[r] == Layer::Edge && #[trigger] canonical_keeps(layers, edges, r)
                && neighbor_set(edges, r) == neighbor_set(edges, j);
        assert(canonical_keeps(layers, edges, r));
    }
}

/// No two kept Edge nodes have the same neighbours.
pub proof fn lemma_representatives_distinct(layers: Seq<Layer>, edges: Seq<(u32, u32)>, a: int, b: int)
    requires
        0 <= a < layers.len(),
        0 <= b < layers.len(),
        layers[a] == Layer::Edge,
        layers[b] == Layer::Edge,
        canonical_keeps(layers, edges, a),
        canonical_keeps(layers, edges, b),
        neighbor_set(edges, a) == neighbor_set(edges, b),
    ensures
        a == b,
{
    if a < b {
        assert(neighbor_set(edges, a) != neighbor_set(edges, b));
    } else if b < a {
        assert(neighbor_set(edges, b) != neighbor_set(edges, a));
    }
}

} // verus!
