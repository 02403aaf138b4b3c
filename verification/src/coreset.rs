//! Core-set selection: starting from one node, repeatedly add the node whose
//! degree is farthest from the degrees already selected.

use vstd::prelude::*;
use crate::selection::{compute_degrees, degree_of};
use crate::generators::{seeded_rng, draw_below};

verus! {

/// `|a - b|`.
pub open spec fn abs_diff(a: int, b: int) -> int {
    if a >= b {
        a - b
    } else {
        b - a
    }
}

/// The smallest degree distance from node `i` to the first `m` selected nodes.
pub open spec fn gap(deg: Seq<usize>, sel: Seq<u32>, i: int, m: int) -> int
    decreases m,
{
    if m <= 1 {
        abs_diff(deg[i] as int, deg[sel[0] as int] as int)
    } else {
        let prev = gap(deg, sel, i, m - 1);
        let d = abs_diff(deg[i] as int, deg[sel[m - 1] as int] as int);
        if d < prev {
            d
        } else {
            prev
        }
    }
}

/// `sel` is a farthest-first order: it starts anywhere, every later node is
/// new, and among the nodes not yet selected it has the largest gap to those
/// selected before it, the largest index among equal gaps. It holds `k`
/// nodes (all, when there are fewer; at least the first).
pub open spec fn farthest_first(deg: Seq<usize>, sel: Seq<u32>, k: nat) -> bool {
    let n = deg.len();
    &&& sel.len() == (if k <= 1 {
        1
    } else if k < n {
        k
    } else {
        n
    })
    &&& forall|t: int| 0 <= t < sel.len() ==> (#[trigger] sel[t] as int) < n
    &&& forall|t: int, u: int| 0 <= u < t < sel.len() ==> #[trigger] sel[t] != #[trigger] sel[u]
    &&& forall|t: int, i: int|
        1 <= t < sel.len() && 0 <= i < n && !sel.take(t).contains(i as u32) ==> #[trigger] beats(
            deg,
            sel,
            t,
            i,
        )
}

/// The `t`-th selected node beats node `i`: a larger gap to the nodes before
/// it, or the same gap and an index no smaller.
pub open spec fn beats(deg: Seq<usize>, sel: Seq<u32>, t: int, i: int) -> bool {
    gap(deg, sel, i, t) < gap(deg, sel, sel[t] as int, t) || (gap(deg, sel, i, t) == gap(
        deg,
        sel,
        sel[t] as int,
        t,
    ) && i <= sel[t])
}

/// A sequence of distinct nodes that contains every node below `n` has at
/// least `n` entries.
proof fn lemma_covering_len(s: Seq<u32>, n: nat)
    requires
        forall|a: int, b: int| 0 <= a < b < s.len() ==> s[a] != s[b],
        forall|y: u32| (y as int) < n ==> #[trigger] s.contains(y),
        n <= 0x1_0000_0000,
    ensures
        s.len() >= n,
{
    let m = s.map_values(|x: u32| x as int);
    assert(m.no_duplicates()) by {
        assert forall|a: int, b: int| 0 <= a < m.len() && 0 <= b < m.len() && a != b implies m[a] != m[b] by {
            if a < b {
                assert(s[a] != s[b]);
            } else {
                assert(s[b] != s[a]);
            }
        }
    }
    m.unique_seq_to_set();
    vstd::set_lib::lemma_int_range(0, n as int);
    assert(vstd::set_lib::set_int_range(0, n as int).subset_of(m.to_set())) by {
        assert forall|y: int| vstd::set_lib::set_int_range(0, n as int).contains(y) implies m.to_set().contains(y) by {
            assert(((y as u32) as int) == y);
            assert(s.contains(y as u32));
            let p = choose|p: int| 0 <= p < s.len() && s[p] == y as u32;
            assert(m[p] == y);
        }
    }
    vstd::set_lib::lemma_len_subset(vstd::set_lib::set_int_range(0, n as int), m.to_set());
}

proof fn lemma_gap_frame(deg: Seq<usize>, a: Seq<u32>, b: Seq<u32>, i: int, m: int)
    requires
        1 <= m <= a.len(),
        m <= b.len(),
        forall|t: int| 0 <= t < m ==> #[trigger] a[t] == b[t],
    ensures
        gap(deg, a, i, m) == gap(deg, b, i, m),
    decreases m,
{
    if m > 1 {
        lemma_gap_frame(deg, a, b, i, m - 1);
    }
}

/// The farthest-first order from `first` over the node degrees.
pub fn farthest_first_order(deg: &Vec<usize>, first: u32, k: usize) -> (sel: Vec<u32>)
    requires
        (first as int) < deg.len(),
        deg.len() <= 0x1_0000_0000,
    ensures
        sel@.len() >= 1,
        sel@[0] == first,
        farthest_first(deg@, sel@, k as nat),
{
    let n = deg.len();
    let mut sel: Vec<u32> = Vec::new();
    sel.push(first);
    let mut chosen: Vec<bool> = Vec::new();
    let mut x: usize = 0;
    while x < n
        invariant
            x <= n,
            n == deg.len(),
            chosen.len() == x,
            (first as int) < n,
            forall|y: int| 0 <= y < x ==> #[trigger] chosen[y] == (y == first as int),
        decreases n - x,
    {
        chosen.push(x == first as usize);
        x = x + 1;
    }
    while sel.len() < k && sel.len() < n
        invariant
            n == deg.len(),
            n <= 0x1_0000_0000,
            1 <= sel.len() <= n,
            sel@[0] == first,
            sel.len() <= k || sel.len() == 1,
            chosen.len() == n,
            forall|y: int| 0 <= y < n ==> (#[trigger] chosen[y] <==> sel@.contains(y as u32)),
            forall|t: int| 0 <= t < sel.len() ==> (#[trigger] sel@[t] as int) < n,
            forall|t: int, u: int| 0 <= u < t < sel.len() ==> #[trigger] sel@[t] != #[trigger] sel@[u],
            forall|t: int, i: int|
                1 <= t < sel.len() && 0 <= i < n && !sel@.take(t).contains(i as u32) ==> #[trigger] beats(
                    deg@,
                    sel@,
                    t,
                    i,
                ),
        decreases n - sel.len(),
    {
        let m = sel.len();
        let mut best: u32 = 0;
        let mut best_gap: usize = 0;
        let mut found = false;
        let mut i: usize = 0;
        while i < n
            invariant
                n == deg.len(),
                n <= 0x1_0000_0000,
                m == sel.len(),
                1 <= m,
                i <= n,
                chosen.len() == n,
                forall|t: int| 0 <= t < m ==> (#[trigger] sel@[t] as int) < n,
                forall|y: int| 0 <= y < n ==> (#[trigger] chosen[y] <==> sel@.contains(y as u32)),
                found ==> (best as int) < i && !chosen[best as int] && best_gap == gap(deg@, sel@, best as int, m as int),
                forall|y: int|
                    0 <= y < i && !chosen[y] ==> found && (gap(deg@, sel@, y, m as int) < best_gap || (gap(
                        deg@,
                        sel@,
                        y,
                        m as int,
                    ) == best_gap && y <= best)),
            decreases n - i,
        {
            if !chosen[i] {
                // the smallest degree distance to the selected nodes
                let mut g: usize = if deg[i] >= deg[sel[0] as usize] {
                    deg[i] - deg[sel[0] as usize]
                } else {
                    deg[sel[0] as usize] - deg[i]
                };
                let mut t: usize = 1;
                while t < m
                    invariant
                        1 <= t <= m,
                        m == sel.len(),
                        i < n,
                        n == deg.len(),
                        forall|q: int| 0 <= q < m ==> (#[trigger] sel@[q] as int) < n,
                        g == gap(deg@, sel@, i as int, t as int),
                    decreases m - t,
                {
                    let s = sel[t] as usize;
                    let d = if deg[i] >= deg[s] {
                        deg[i] - deg[s]
                    } else {
                        deg[s] - deg[i]
                    };
                    if d < g {
                        g = d;
                    }
                    t = t + 1;
                }
                if !found || g >= best_gap {
                    best = i as u32;
                    best_gap = g;
                    found = true;
                }
            }
            i = i + 1;
        }
        proof {
            // an unselected node exists, since fewer than n are selected
            if !found {
                assert forall|y: u32| (y as int) < n implies #[trigger] sel@.contains(y) by {
                    assert(chosen[y as int]);
                    assert(((y as int) as u32) == y);
                }
                lemma_covering_len(sel@, n as nat);
                assert(false);
            }
        }
        let ghost before = sel@;
        let ghost old_chosen = chosen@;
        sel.push(best);
        chosen.set(best as usize, true);
        proof {
            assert(sel@.take(m as int) =~= before);
            assert forall|y: int| 0 <= y < n implies (#[trigger] chosen[y] <==> sel@.contains(y as u32)) by {
                if sel@.contains(y as u32) && y != best as int {
                    let p = choose|p: int| 0 <= p < sel@.len() && sel@[p] == y as u32;
                    assert(before[p] == y as u32);
                }
                if before.contains(y as u32) {
                    let p = choose|p: int| 0 <= p < before.len() && before[p] == y as u32;
                    assert(sel@[p] == y as u32);
                }
                if y == best as int {
                    assert(sel@[m as int] == best);
                }
            }
            assert forall|t: int, u: int| 0 <= u < t < sel.len() implies #[trigger] sel@[t] != #[trigger] sel@[u] by {
                if t == m {
                    assert(before.contains(sel@[u]));
                }
            }
            assert forall|t: int, i: int|
                1 <= t < sel.len() && 0 <= i < n && !sel@.take(t).contains(i as u32) implies #[trigger] beats(
                    deg@,
                    sel@,
                    t,
                    i,
                ) by {
                lemma_gap_frame(deg@, before, sel@, i, t);
                lemma_gap_frame(deg@, before, sel@, sel@[t] as int, t);
                if t < m {
                    assert(sel@.take(t) =~= before.take(t));
                    assert(sel@[t] == before[t]);
                    assert(beats(deg@, before, t, i));
                } else {
                    assert(sel@.take(t) =~= before);
                    if !before.contains(i as u32) {
                        assert((i as u32) as int == i);
                        assert(!old_chosen[i]);
                    }
                }
            }
        }
    }
    sel
}

/// Core-set selection over node degrees: the first node is drawn from a
/// generator seeded with `seed`, then nodes are added farthest-first up to
/// `k` of them. Which node is drawn first is not stated.
pub fn coreset_select(n: usize, edges: &Vec<(u32, u32)>, k: usize, seed: u64) -> (sel: Vec<u32>)
    requires
        0 < n <= 0x1_0000_0000,
        2 * edges.len() <= usize::MAX,
    ensures
        farthest_first(Seq::new(n as nat, |u: int| degree_of(edges@, u) as usize), sel@, k as nat),
{
    let deg = compute_degrees(n, edges);
    let mut rng = seeded_rng(seed);
    let first = draw_below(&mut rng, n) as u32;
    assert(deg@ =~= Seq::new(n as nat, |u: int| degree_of(edges@, u) as usize));
    farthest_first_order(&deg, first, k)
}

} // verus!
