//! Adversarial benchmark graphs: dense hubs, a tail of ordinary nodes and a
//! planted set of rare nodes whose shape defeats one assumption of the
//! classifier. Random choices come from a seeded `SmallRng`; every property
//! below holds whatever it draws.

use vstd::prelude::*;
use rand::rngs::SmallRng;
use crate::selection::{compute_degrees, degree_of};
use crate::text::string_of;
use crate::components::lemma_distinct_below_len;

verus! {

#[verifier::external_type_specification]
#[verifier::external_body]
pub struct ExSmallRng(rand::rngs::SmallRng);

/// `SeedableRng::seed_from_u64` for `SmallRng`: a generator seeded from
/// `seed`. Nothing is stated of its state.
#[verifier::external_body]
pub(crate) fn seeded_rng(seed: u64) -> SmallRng {
    <SmallRng as rand::SeedableRng>::seed_from_u64(seed)
}

/// `Rng::gen_range(0..bound)`; claimed: a value below `bound`. The range
/// must not be empty (the call panics on an empty range). Which value is
/// drawn is not stated.
#[verifier::external_body]
pub(crate) fn draw_below(rng: &mut SmallRng, bound: usize) -> (r: usize)
    requires
        bound > 0,
    ensures
        r < bound,
{
    rand::Rng::gen_range(rng, 0..bound)
}

/// `Rng::gen_range(lo..=hi)` on `i32`; claimed: a value from `lo` to `hi`.
/// The range must not be empty (the call panics on an empty range). Which
/// value is drawn is not stated.
#[verifier::external_body]
fn draw_i32_between(rng: &mut SmallRng, lo: i32, hi: i32) -> (r: i32)
    requires
        lo <= hi,
    ensures
        lo <= r <= hi,
{
    rand::Rng::gen_range(rng, lo..=hi)
}

/// A generated benchmark graph: its node count, its edges and its planted
/// rare nodes.
pub struct GeneratedGraph {
    pub n_nodes: usize,
    pub edges: Vec<(u32, u32)>,
    pub rare: Vec<u32>,
}

/// Number of hubs: one per 50 nodes, at least 2.
pub open spec fn hub_count(n: nat) -> nat {
    if n / 50 > 2 {
        n / 50
    } else {
        2
    }
}

/// Number of rare nodes: one per 20 nodes, at least 1.
pub open spec fn rare_count(n: nat) -> nat {
    if n / 20 > 1 {
        n / 20
    } else {
        1
    }
}

/// The edges `(u, v)` for `u < v < h`, row by row for the rows `u < rows`.
pub open spec fn clique_rows(rows: int, h: int) -> Seq<(u32, u32)>
    decreases rows,
{
    if rows <= 0 {
        Seq::empty()
    } else {
        clique_rows(rows - 1, h) + clique_row(rows - 1, h)
    }
}

/// The edges `(u, v)` for `u < v < h`.
pub open spec fn clique_row(u: int, h: int) -> Seq<(u32, u32)> {
    Seq::new(if h > u + 1 { (h - u - 1) as nat } else { 0 }, |k: int| (u as u32, (u + 1 + k) as u32))
}

/// The ids `lo .. hi`.
pub open spec fn id_range(lo: int, hi: int) -> Seq<u32> {
    Seq::new(if hi > lo { (hi - lo) as nat } else { 0 }, |k: int| (lo + k) as u32)
}

/// Number of edges whose source is `id`.
pub open spec fn out_count(edges: Seq<(u32, u32)>, id: int) -> nat
    decreases edges.len(),
{
    if edges.len() == 0 {
        0
    } else {
        out_count(edges.drop_last(), id) + (if edges.last().0 as int == id {
            1nat
        } else {
            0nat
        })
    }
}

proof fn lemma_out_count_push(edges: Seq<(u32, u32)>, e: (u32, u32), id: int)
    ensures
        out_count(edges.push(e), id) == out_count(edges, id) + (if e.0 as int == id {
            1nat
        } else {
            0nat
        }),
{
    assert(edges.push(e).drop_last() =~= edges);
}

proof fn lemma_out_count_none(edges: Seq<(u32, u32)>, id: int)
    requires
        forall|i: int| 0 <= i < edges.len() ==> #[trigger] edges[i].0 as int != id,
    ensures
        out_count(edges, id) == 0,
    decreases edges.len(),
{
    if edges.len() > 0 {
        lemma_out_count_none(edges.drop_last(), id);
    }
}

/// Appends the hub clique: `(u, v)` for every `u < v < h`, row by row.
fn push_clique(edges: &mut Vec<(u32, u32)>, h: usize)
    requires
        h <= 0xffff_ffff,
        old(edges).len() == 0,
    ensures
        final(edges)@ == clique_rows(h as int, h as int),
{
    let mut u: usize = 0;
    while u < h
        invariant
            u <= h,
            h <= 0xffff_ffff,
            edges@ == clique_rows(u as int, h as int),
        decreases h - u,
    {
        let ghost before = edges@;
        let mut v: usize = u + 1;
        while v < h
            invariant
                u < h,
                u + 1 <= v <= h,
                h <= 0xffff_ffff,
                before == clique_rows(u as int, h as int),
                edges@ == before + clique_row(u as int, h as int).take(v - u - 1),
            decreases h - v,
        {
            edges.push((u as u32, v as u32));
            assert(edges@ =~= before + clique_row(u as int, h as int).take(v - u));
            v = v + 1;
        }
        assert(clique_row(u as int, h as int).take(h - u - 1) =~= clique_row(u as int, h as int));
        u = u + 1;
    }
}

/// The values of `draws` without repeats, in order of first appearance.
pub open spec fn first_occurrences(draws: Seq<u32>) -> Seq<u32>
    decreases draws.len(),
{
    if draws.len() == 0 {
        Seq::empty()
    } else {
        let prev = first_occurrences(draws.drop_last());
        if prev.contains(draws.last()) {
            prev
        } else {
            prev.push(draws.last())
        }
    }
}

/// The edges `(id, v)` for the values `v` of `targets`, in order.
pub open spec fn edges_from(id: u32, targets: Seq<u32>) -> Seq<(u32, u32)> {
    targets.map_values(|v: u32| (id, v))
}

/// The hub targets chosen for the drawn hubs of a node: every draw, or with
/// `distinct` the draws without repeats.
pub open spec fn chosen_hubs(draws: Seq<u32>, distinct: bool) -> Seq<u32> {
    if distinct {
        first_occurrences(draws)
    } else {
        draws
    }
}

/// Appends `k` edges from `id` to drawn hubs; with `distinct`, a hub drawn
/// again for this node is skipped.
fn push_hub_edges(
    rng: &mut SmallRng,
    edges: &mut Vec<(u32, u32)>,
    id: u32,
    k: usize,
    h: usize,
    distinct: bool,
) -> (drawn: Ghost<Seq<u32>>)
    requires
        0 < h <= 0xffff_ffff,
        forall|i: int| 0 <= i < old(edges).len() ==> #[trigger] old(edges)[i].0 != id,
    ensures
        drawn@.len() == k,
        forall|i: int| 0 <= i < k ==> (#[trigger] drawn@[i] as int) < h,
        final(edges)@ == old(edges)@ + edges_from(id, chosen_hubs(drawn@, distinct)),
        final(edges).len() >= old(edges).len(),
        final(edges)@.take(old(edges).len() as int) == old(edges)@,
        forall|i: int|
            old(edges).len() <= i < final(edges).len() ==> #[trigger] final(edges)[i].0 == id
                && (final(edges)[i].1 as int) < h,
        out_count(final(edges)@, id as int) == final(edges).len() - old(edges).len(),
        !distinct ==> final(edges).len() - old(edges).len() == k,
        distinct ==> final(edges).len() - old(edges).len() <= k,
        distinct && k >= 1 ==> final(edges).len() - old(edges).len() >= 1,
        distinct ==> forall|i: int, j: int|
            old(edges).len() <= i < j < final(edges).len() ==> #[trigger] final(edges)[i].1
                != #[trigger] final(edges)[j].1,
{
    let ghost start = edges@;
    proof {
        lemma_out_count_none(start, id as int);
    }
    let mut used: Vec<u32> = Vec::new();
    let ghost mut draws: Seq<u32> = Seq::empty();
    let mut t: usize = 0;
    while t < k
        invariant
            0 < h <= 0xffff_ffff,
            t <= k,
            draws.len() == t,
            forall|i: int| 0 <= i < t ==> (#[trigger] draws[i] as int) < h,
            used@ == chosen_hubs(draws, distinct),
            edges@ == start + edges_from(id, used@),
            edges.len() >= start.len(),
            edges@.take(start.len() as int) == start,
            forall|i: int| 0 <= i < start.len() ==> #[trigger] start[i].0 != id,
            used.len() == edges.len() - start.len(),
            forall|i: int|
                start.len() <= i < edges.len() ==> #[trigger] edges[i].0 == id && (edges[i].1 as int)
                    < h && edges[i].1 == used[i - start.len()],
            out_count(edges@, id as int) == edges.len() - start.len(),
            !distinct ==> edges.len() - start.len() == t,
            distinct ==> edges.len() - start.len() <= t,
            distinct && t >= 1 ==> edges.len() - start.len() >= 1,
            distinct ==> forall|i: int, j: int| 0 <= i < j < used.len() ==> #[trigger] used[i] != #[trigger] used[j],
        decreases k - t,
    {
        let hub = draw_below(rng, h) as u32;
        let mut seen = false;
        if distinct {
            let mut p: usize = 0;
            while p < used.len()
                invariant
                    p <= used.len(),
                    seen == exists|q: int| 0 <= q < p && used[q] == hub,
                decreases used.len() - p,
            {
                if used[p] == hub {
                    seen = true;
                }
                p = p + 1;
            }
        }
        let ghost old_draws = draws;
        let ghost old_used = used@;
        proof {
            draws = draws.push(hub);
            assert(draws.drop_last() =~= old_draws);
            if distinct {
                if seen {
                    let q = choose|q: int| 0 <= q < old_used.len() && old_used[q] == hub;
                    assert(old_used.contains(hub));
                } else {
                    assert(!old_used.contains(hub));
                }
            }
        }
        if !seen {
            let ghost before = edges@;
            used.push(hub);
            edges.push((id, hub));
            proof {
                assert(edges@ =~= start + edges_from(id, used@));
                lemma_out_count_push(before, (id, hub), id as int);
                assert(edges@.take(start.len() as int) =~= before.take(start.len() as int));
                if distinct {
                    assert forall|a: int, b: int| 0 <= a < b < used.len() implies #[trigger] used[a]
                        != #[trigger] used[b] by {
                        if b == used.len() - 1 {
                            if used[a] == hub {
                                assert(exists|q: int| 0 <= q < used.len() - 1 && used[q] == hub);
                            }
                        }
                    }
                }
            }
        }
        t = t + 1;
    }
    proof {
        if distinct {
            assert forall|i: int, j: int|
                start.len() <= i < j < edges.len() implies #[trigger] edges[i].1 != #[trigger] edges[j].1 by {
                assert(edges[i].0 == id);
                assert(edges[j].0 == id);
                assert(edges[i].1 == used[i - start.len()]);
                assert(edges[j].1 == used[j - start.len()]);
            }
        }
    }
    Ghost(draws)
}

/// The properties shared by the hub-based graphs: the hub clique first, then
/// edges from non-hub nodes.
pub open spec fn starts_with_clique(edges: Seq<(u32, u32)>, h: nat) -> bool {
    let c = clique_rows(h as int, h as int);
    &&& c.len() <= edges.len()
    &&& edges.take(c.len() as int) == c
    &&& forall|i: int| c.len() <= i < edges.len() ==> (#[trigger] edges[i]).0 >= h
}

/// The hub edges of nodes `first, first + 1, ...`, one list of draws per
/// node, in node order.
pub open spec fn hub_rows_for(first: int, draws: Seq<Seq<u32>>, distinct: bool) -> Seq<(u32, u32)>
    decreases draws.len(),
{
    if draws.len() == 0 {
        Seq::empty()
    } else {
        hub_rows_for(first, draws.drop_last(), distinct) + edges_from(
            (first + draws.len() - 1) as u32,
            chosen_hubs(draws.last(), distinct),
        )
    }
}

/// Whether `draws` holds `count` lists of `per` values, each below `bound`.
pub open spec fn draws_below(draws: Seq<Seq<u32>>, count: int, per: nat, bound: int) -> bool {
    &&& draws.len() == count
    &&& forall|i: int|
        0 <= i < count ==> {
            &&& (#[trigger] draws[i]).len() == per
            &&& forall|k: int| 0 <= k < per ==> (#[trigger] draws[i][k] as int) < bound
        }
}

/// The number of tail nodes of a hub-based graph on `n` nodes.
pub open spec fn tail_count(n: nat) -> int {
    let start = hub_count(n) + rare_count(n);
    if n > start {
        n - start
    } else {
        0
    }
}

/// What graph (A) on `n` nodes consists of, given the draws: the hub clique;
/// for each rare node its `rare_degree` hub draws, linked without repeats in
/// order of first draw; for each tail node its three hub draws.
pub open spec fn high_degree_shape(
    n: nat,
    rare_degree: nat,
    edges: Seq<(u32, u32)>,
    rare_draws: Seq<Seq<u32>>,
    tail_draws: Seq<Seq<u32>>,
) -> bool {
    let h = hub_count(n) as int;
    let r = rare_count(n) as int;
    &&& draws_below(rare_draws, r, rare_degree, h)
    &&& draws_below(tail_draws, tail_count(n), 3, h)
    &&& edges == clique_rows(h, h) + hub_rows_for(h, rare_draws, true) + hub_rows_for(h + r, tail_draws, false)
}

/// Adversarial graph (A), high-degree rare: hubs in a clique; each rare node
/// `h .. h + r` linked to up to `rare_degree` distinct drawn hubs (at least
/// one when `rare_degree > 0`), which defeats the "one neighbour" rule; each
/// tail node `h + r .. n` linked to 3 drawn hubs.
pub fn high_degree_rare(n: usize, rare_degree: usize, seed: u64) -> (g: GeneratedGraph)
    requires
        n <= 0xffff_ffff,
    ensures
        g.n_nodes == n,
        g.rare@ == id_range(hub_count(n as nat) as int, (hub_count(n as nat) + rare_count(n as nat)) as int),
        starts_with_clique(g.edges@, hub_count(n as nat)),
        forall|i: int|
            clique_rows(hub_count(n as nat) as int, hub_count(n as nat) as int).len() <= i
                < g.edges.len() ==> (#[trigger] g.edges[i].1 as int) < hub_count(n as nat),
        forall|id: int|
            hub_count(n as nat) <= id < hub_count(n as nat) + rare_count(n as nat) ==> {
                &&& #[trigger] out_count(g.edges@, id) <= rare_degree
                &&& rare_degree >= 1 ==> out_count(g.edges@, id) >= 1
            },
        forall|i: int, j: int|
            0 <= i < j < g.edges.len() && #[trigger] g.edges[i].0 == #[trigger] g.edges[j].0
                && hub_count(n as nat) <= g.edges[i].0 < hub_count(n as nat) + rare_count(n as nat)
                ==> g.edges[i].1 != g.edges[j].1,
        forall|id: int|
            hub_count(n as nat) + rare_count(n as nat) <= id < n ==> #[trigger] out_count(g.edges@, id)
                == 3,
        exists|rare_draws: Seq<Seq<u32>>, tail_draws: Seq<Seq<u32>>|
            #[trigger] high_degree_shape(n as nat, rare_degree as nat, g.edges@, rare_draws, tail_draws),
{
    let h: usize = if n / 50 > 2 {
        n / 50
    } else {
        2
    };
    let r: usize = if n / 20 > 1 {
        n / 20
    } else {
        1
    };
    let mut rng = seeded_rng(seed);
    let mut edges: Vec<(u32, u32)> = Vec::new();
    push_clique(&mut edges, h);
    let ghost c = edges@;
    proof {
        lemma_clique_sources(h as int, h as int);
    }
    let mut rare: Vec<u32> = Vec::new();
    let ghost mut rare_draws: Seq<Seq<u32>> = Seq::empty();
    let mut i: usize = 0;
    while i < r
        invariant
            draws_below(rare_draws, i as int, rare_degree as nat, h as int),
            edges@ == c + hub_rows_for(h as int, rare_draws, true),
            h == hub_count(n as nat),
            r == rare_count(n as nat),
            n <= 0xffff_ffff,
            h + r <= n || h + r <= 3,
            i <= r,
            c == clique_rows(h as int, h as int),
            c.len() <= edges.len(),
            edges@.take(c.len() as int) == c,
            forall|x: int| 0 <= x < edges.len() ==> (#[trigger] edges[x]).0 < h + i,
            forall|x: int| c.len() <= x < edges.len() ==> (#[trigger] edges[x]).0 >= h && (edges[x].1 as int) < h,
            rare@ == id_range(h as int, h + i),
            forall|id: int|
                h <= id < h + i ==> {
                    &&& #[trigger] out_count(edges@, id) <= rare_degree
                    &&& rare_degree >= 1 ==> out_count(edges@, id) >= 1
                },
            forall|x: int, y: int|
                0 <= x < y < edges.len() && #[trigger] edges[x].0 == #[trigger] edges[y].0 && h
                    <= edges[x].0 < h + r ==> edges[x].1 != edges[y].1,
        decreases r - i,
    {
        let id = (h + i) as u32;
        let ghost before = edges@;
        let Ghost(d) = push_hub_edges(&mut rng, &mut edges, id, rare_degree, h, true);
        proof {
            let old_draws = rare_draws;
            rare_draws = rare_draws.push(d);
            assert(rare_draws.drop_last() =~= old_draws);
            assert(edges@ =~= c + hub_rows_for(h as int, rare_draws, true));
            lemma_take_prefix(edges@, before);
            assert forall|x: int| c.len() <= x < edges.len() implies (#[trigger] edges[x]).0 >= h
                && (edges[x].1 as int) < h by {
                if x < before.len() {
                    assert(edges[x] == before[x]);
                } else {
                    assert(edges[x].0 == id);
                }
            }
            assert(edges@.take(c.len() as int) =~= before.take(c.len() as int));
            assert forall|d: int| h <= d < h + i implies #[trigger] out_count(edges@, d) == out_count(before, d) by {
                lemma_out_count_prefix(before, edges@, d);
            }
        }
        rare.push(id);
        assert(rare@ =~= id_range(h as int, h + i + 1));
        i = i + 1;
    }
    let ghost rare_part = edges@;
    let ghost mut tail_draws: Seq<Seq<u32>> = Seq::empty();
    let mut t: usize = h + r;
    while t < n
        invariant
            rare_part == c + hub_rows_for(h as int, rare_draws, true),
            draws_below(rare_draws, r as int, rare_degree as nat, h as int),
            draws_below(tail_draws, t - (h + r), 3, h as int),
            t <= n || t == h + r,
            edges@ == rare_part + hub_rows_for((h + r) as int, tail_draws, false),
            h == hub_count(n as nat),
            r == rare_count(n as nat),
            n <= 0xffff_ffff,
            h + r <= t,
            c == clique_rows(h as int, h as int),
            c.len() <= edges.len(),
            edges@.take(c.len() as int) == c,
            forall|x: int| 0 <= x < edges.len() ==> (#[trigger] edges[x]).0 < t,
            forall|x: int| c.len() <= x < edges.len() ==> (#[trigger] edges[x]).0 >= h && (edges[x].1 as int) < h,
            rare@ == id_range(h as int, (h + r) as int),
            forall|id: int|
                h <= id < h + r ==> {
                    &&& #[trigger] out_count(edges@, id) <= rare_degree
                    &&& rare_degree >= 1 ==> out_count(edges@, id) >= 1
                },
            forall|x: int, y: int|
                0 <= x < y < edges.len() && #[trigger] edges[x].0 == #[trigger] edges[y].0 && h
                    <= edges[x].0 < h + r ==> edges[x].1 != edges[y].1,
            forall|id: int| h + r <= id < t ==> #[trigger] out_count(edges@, id) == 3,
        decreases n - t,
    {
        let id = t as u32;
        let ghost before = edges@;
        let Ghost(d) = push_hub_edges(&mut rng, &mut edges, id, 3, h, false);
        proof {
            let old_draws = tail_draws;
            tail_draws = tail_draws.push(d);
            assert(tail_draws.drop_last() =~= old_draws);
            assert(edges@ =~= rare_part + hub_rows_for((h + r) as int, tail_draws, false));
            lemma_take_prefix(edges@, before);
            assert forall|x: int| c.len() <= x < edges.len() implies (#[trigger] edges[x]).0 >= h
                && (edges[x].1 as int) < h by {
                if x < before.len() {
                    assert(edges[x] == before[x]);
                } else {
                    assert(edges[x].0 == id);
                }
            }
            assert(edges@.take(c.len() as int) =~= before.take(c.len() as int));
            assert forall|d: int| h <= d < t implies #[trigger] out_count(edges@, d) == out_count(before, d) by {
                lemma_out_count_prefix(before, edges@, d);
            }
        }
        t = t + 1;
    }
    proof {
        assert(tail_count(n as nat) == tail_draws.len());
        assert(edges@ =~= clique_rows(h as int, h as int) + hub_rows_for(h as int, rare_draws, true)
            + hub_rows_for((h + r) as int, tail_draws, false));
    }
    let g = GeneratedGraph { n_nodes: n, edges, rare };
    assert(high_degree_shape(n as nat, rare_degree as nat, g.edges@, rare_draws, tail_draws));
    g
}

/// The island edges of rare node `first + i` for its drawn rare indices:
/// an edge to `first + j` for each draw `j` other than `i`, in draw order.
pub open spec fn island_row(first: int, i: int, draws: Seq<u32>) -> Seq<(u32, u32)>
    decreases draws.len(),
{
    if draws.len() == 0 {
        Seq::empty()
    } else {
        let j = draws.last() as int;
        island_row(first, i, draws.drop_last()) + if j != i {
            seq![((first + i) as u32, (first + j) as u32)]
        } else {
            Seq::empty()
        }
    }
}

/// Appends up to `k` edges from rare node `h + i` to drawn rare nodes
/// `h + j`, skipping a draw of `j == i`.
#[verifier::spinoff_prover]
fn push_island_edges(
    rng: &mut SmallRng,
    edges: &mut Vec<(u32, u32)>,
    i: usize,
    k: usize,
    h: usize,
    r: usize,
) -> (drawn: Ghost<Seq<u32>>)
    requires
        i < r,
        h + r <= 0xffff_ffff,
        forall|x: int| 0 <= x < old(edges).len() ==> #[trigger] old(edges)[x].0 != (h + i) as u32,
    ensures
        drawn@.len() == k,
        forall|x: int| 0 <= x < k ==> (#[trigger] drawn@[x] as int) < r,
        final(edges)@ == old(edges)@ + island_row(h as int, i as int, drawn@),
        final(edges).len() >= old(edges).len(),
        final(edges)@.take(old(edges).len() as int) == old(edges)@,
        forall|x: int|
            old(edges).len() <= x < final(edges).len() ==> #[trigger] final(edges)[x].0 == (h + i) as u32
                && h <= final(edges)[x].1 < h + r && final(edges)[x].1 != final(edges)[x].0,
        out_count(final(edges)@, h + i) == final(edges).len() - old(edges).len(),
        final(edges).len() - old(edges).len() <= k,
{
    let ghost start = edges@;
    let id = (h + i) as u32;
    proof {
        lemma_out_count_none(start, h + i);
    }
    let ghost mut draws: Seq<u32> = Seq::empty();
    let mut t: usize = 0;
    while t < k
        invariant
            draws.len() == t,
            forall|x: int| 0 <= x < t ==> (#[trigger] draws[x] as int) < r,
            edges@ == start + island_row(h as int, i as int, draws),
            i < r,
            h + r <= 0xffff_ffff,
            id == (h + i) as u32,
            id as int == h + i,
            t <= k,
            edges.len() >= start.len(),
            edges@.take(start.len() as int) == start,
            forall|x: int|
                start.len() <= x < edges.len() ==> #[trigger] edges[x].0 == id && h <= edges[x].1
                    < h + r && edges[x].1 != edges[x].0,
            out_count(edges@, h + i) == edges.len() - start.len(),
            edges.len() - start.len() <= t,
        decreases k - t,
    {
        let other = draw_below(rng, r);
        let ghost old_draws = draws;
        let ghost before_all = edges@;
        proof {
            draws = draws.push(other as u32);
            assert(draws.drop_last() =~= old_draws);
            assert(draws.last() as int == other);
        }
        if other != i {
            let ghost before = edges@;
            let target = (h + other) as u32;
            assert(target as int == h + other);
            edges.push((id, target));
            proof {
                assert(edges[edges.len() - 1] == (id, target));
                assert forall|x: int| start.len() <= x < edges.len() implies #[trigger] edges[x].0 == id
                    && h <= edges[x].1 < h + r && edges[x].1 != edges[x].0 by {
                    if x < before.len() {
                        assert(edges[x] == before[x]);
                    } else {
                        assert(edges[x] == (id, target));
                    }
                }
                assert(edges@ =~= start + island_row(h as int, i as int, draws));
                lemma_out_count_push(before, (id, (h + other) as u32), h + i);
                assert(edges@.take(start.len() as int) =~= before.take(start.len() as int));
            }
        }
        else {
            assert(edges@ =~= start + island_row(h as int, i as int, draws));
        }
        t = t + 1;
    }
    assert forall|x: int| start.len() <= x < edges.len() implies #[trigger] edges[x].0 == (h + i) as u32 && h
        <= edges[x].1 < h + r && edges[x].1 != edges[x].0 by {
        assert(edges[x].0 == id);
    }
    Ghost(draws)
}

/// The island edges of rare nodes `first, first + 1, ...`, one list of
/// drawn rare indices per node, in node order.
pub open spec fn island_rows(first: int, draws: Seq<Seq<u32>>) -> Seq<(u32, u32)>
    decreases draws.len(),
{
    if draws.len() == 0 {
        Seq::empty()
    } else {
        island_rows(first, draws.drop_last()) + island_row(first, draws.len() - 1, draws.last())
    }
}

/// What graph (B) on `n` nodes consists of, given the draws: the hub clique;
/// for each tail node its three hub draws; then for each rare node its
/// `rare_degree` draws of a rare index, linked to those rare nodes other than
/// itself, in draw order.
pub open spec fn isolated_shape(
    n: nat,
    rare_degree: nat,
    edges: Seq<(u32, u32)>,
    tail_draws: Seq<Seq<u32>>,
    rare_draws: Seq<Seq<u32>>,
) -> bool {
    let h = hub_count(n) as int;
    let r = rare_count(n) as int;
    &&& draws_below(tail_draws, tail_count(n), 3, h)
    &&& draws_below(rare_draws, r, rare_degree, r)
    &&& edges == clique_rows(h, h) + hub_rows_for(h + r, tail_draws, false) + island_rows(h, rare_draws)
}

/// Adversarial graph (B), structurally isolated rare: hubs in a clique, each
/// tail node `h + r .. n` linked to 3 drawn hubs, and the rare nodes
/// `h .. h + r` linked only among themselves, each to up to `rare_degree`
/// drawn other rare nodes, so they form components apart from the hubs.
pub fn structurally_isolated(n: usize, rare_degree: usize, seed: u64) -> (g: GeneratedGraph)
    requires
        n <= 0xffff_ffff,
    ensures
        g.n_nodes == n,
        g.rare@ == id_range(hub_count(n as nat) as int, (hub_count(n as nat) + rare_count(n as nat)) as int),
        starts_with_clique(g.edges@, hub_count(n as nat)),
        forall|i: int|
            clique_rows(hub_count(n as nat) as int, hub_count(n as nat) as int).len() <= i
                < g.edges.len() ==> if (#[trigger] g.edges[i]).0 < hub_count(n as nat) + rare_count(n as nat) {
                hub_count(n as nat) <= g.edges[i].1 < hub_count(n as nat) + rare_count(n as nat)
                    && g.edges[i].1 != g.edges[i].0
            } else {
                (g.edges[i].1 as int) < hub_count(n as nat)
            },
        forall|id: int|
            hub_count(n as nat) <= id < hub_count(n as nat) + rare_count(n as nat) ==> #[trigger] out_count(
                g.edges@,
                id,
            ) <= rare_degree,
        forall|id: int|
            hub_count(n as nat) + rare_count(n as nat) <= id < n ==> #[trigger] out_count(g.edges@, id)
                == 3,
        exists|tail_draws: Seq<Seq<u32>>, rare_draws: Seq<Seq<u32>>|
            #[trigger] isolated_shape(n as nat, rare_degree as nat, g.edges@, tail_draws, rare_draws),
{
    let h: usize = if n / 50 > 2 {
        n / 50
    } else {
        2
    };
    let r: usize = if n / 20 > 1 {
        n / 20
    } else {
        1
    };
    let mut rng = seeded_rng(seed);
    let mut edges: Vec<(u32, u32)> = Vec::new();
    push_clique(&mut edges, h);
    let ghost c = edges@;
    proof {
        lemma_clique_sources(h as int, h as int);
    }
    let ghost mut tail_draws: Seq<Seq<u32>> = Seq::empty();
    let mut t: usize = h + r;
    while t < n
        invariant
            draws_below(tail_draws, t - (h + r), 3, h as int),
            t <= n || t == h + r,
            edges@ == c + hub_rows_for((h + r) as int, tail_draws, false),
            h == hub_count(n as nat),
            r == rare_count(n as nat),
            n <= 0xffff_ffff,
            h + r <= n || h + r <= 3,
            h + r <= t,
            c == clique_rows(h as int, h as int),
            c.len() <= edges.len(),
            edges@.take(c.len() as int) == c,
            forall|x: int| 0 <= x < c.len() ==> (#[trigger] edges[x]).0 < h,
            forall|x: int|
                c.len() <= x < edges.len() ==> h + r <= (#[trigger] edges[x]).0 < t && (edges[x].1 as int) < h,
            forall|id: int| h + r <= id < t ==> #[trigger] out_count(edges@, id) == 3,
        decreases n - t,
    {
        let id = t as u32;
        let ghost before = edges@;
        let Ghost(d) = push_hub_edges(&mut rng, &mut edges, id, 3, h, false);
        proof {
            let old_draws = tail_draws;
            tail_draws = tail_draws.push(d);
            assert(tail_draws.drop_last() =~= old_draws);
            assert(edges@ =~= c + hub_rows_for((h + r) as int, tail_draws, false));
            lemma_take_prefix(edges@, before);
            assert(edges@.take(c.len() as int) =~= before.take(c.len() as int));
            assert forall|d: int| h + r <= d < t implies #[trigger] out_count(edges@, d) == out_count(before, d) by {
                lemma_out_count_prefix(before, edges@, d);
            }
        }
        t = t + 1;
    }
    let ghost tail_end = edges.len();
    proof {
        assert forall|id: int| h <= id < h + r implies #[trigger] out_count(edges@, id) == 0 by {
            assert forall|x: int| 0 <= x < edges.len() implies #[trigger] edges@[x].0 as int != id by {
                if x < c.len() {
                    assert(edges[x].0 < h);
                } else {
                    assert(edges[x].0 >= h + r);
                }
            }
            lemma_out_count_none(edges@, id);
        }
    }
    let ghost tail_part = edges@;
    proof {
        assert(tail_count(n as nat) == tail_draws.len());
    }
    let mut rare: Vec<u32> = Vec::new();
    let ghost mut rare_draws: Seq<Seq<u32>> = Seq::empty();
    let mut i: usize = 0;
    while i < r
        invariant
            tail_part == c + hub_rows_for((h + r) as int, tail_draws, false),
            draws_below(tail_draws, tail_count(n as nat), 3, h as int),
            draws_below(rare_draws, i as int, rare_degree as nat, r as int),
            edges@ == tail_part + island_rows(h as int, rare_draws),
            h == hub_count(n as nat),
            r == rare_count(n as nat),
            n <= 0xffff_ffff,
            h + r <= n || h + r <= 3,
            i <= r,
            c == clique_rows(h as int, h as int),
            c.len() <= tail_end <= edges.len(),
            edges@.take(c.len() as int) == c,
            forall|x: int| 0 <= x < c.len() ==> (#[trigger] edges[x]).0 < h,
            forall|x: int|
                c.len() <= x < tail_end ==> h + r <= (#[trigger] edges[x]).0 && (edges[x].1 as int) < h,
            forall|x: int|
                tail_end <= x < edges.len() ==> h <= (#[trigger] edges[x]).0 < h + i && h <= edges[x].1
                    < h + r && edges[x].1 != edges[x].0,
            forall|id: int| h + r <= id < n ==> #[trigger] out_count(edges@, id) == 3,
            forall|id: int| h <= id < h + i ==> #[trigger] out_count(edges@, id) <= rare_degree,
            forall|id: int| h + i <= id < h + r ==> #[trigger] out_count(edges@, id) == 0,
            rare@ == id_range(h as int, h + i),
        decreases r - i,
    {
        let ghost before = edges@;
        proof {
            assert forall|x: int| 0 <= x < edges.len() implies #[trigger] edges[x].0 != (h + i) as u32 by {
                if x < c.len() {
                } else if x < tail_end {
                } else {
                }
            }
        }
        let Ghost(d) = push_island_edges(&mut rng, &mut edges, i, rare_degree, h, r);
        proof {
            let old_draws = rare_draws;
            rare_draws = rare_draws.push(d);
            assert(rare_draws.drop_last() =~= old_draws);
            assert(edges@ =~= tail_part + island_rows(h as int, rare_draws));
            lemma_take_prefix(edges@, before);
            assert(edges@.take(c.len() as int) =~= before.take(c.len() as int));
            assert forall|d: int| (h <= d < h + i || h + i < d < n || (h + r <= d && d < n)) && d != h
                + i implies #[trigger] out_count(edges@, d) == out_count(before, d) by {
                lemma_out_count_prefix(before, edges@, d);
            }
        }
        rare.push((h + i) as u32);
        assert(rare@ =~= id_range(h as int, h + i + 1));
        i = i + 1;
    }
    proof {
        assert(edges@ =~= clique_rows(h as int, h as int) + hub_rows_for((h + r) as int, tail_draws, false)
            + island_rows(h as int, rare_draws));
    }
    let g = GeneratedGraph { n_nodes: n, edges, rare };
    assert(isolated_shape(n as nat, rare_degree as nat, g.edges@, tail_draws, rare_draws));
    g
}

/// Adversarial graph (F), large scale: graph (A) with rare degree 1.
pub fn large_scale(n: usize, seed: u64) -> (g: GeneratedGraph)
    requires
        n <= 0xffff_ffff,
    ensures
        g.n_nodes == n,
        g.rare@ == id_range(hub_count(n as nat) as int, (hub_count(n as nat) + rare_count(n as nat)) as int),
        starts_with_clique(g.edges@, hub_count(n as nat)),
        forall|id: int|
            hub_count(n as nat) <= id < hub_count(n as nat) + rare_count(n as nat) ==> #[trigger] out_count(
                g.edges@,
                id,
            ) == 1,
        forall|id: int|
            hub_count(n as nat) + rare_count(n as nat) <= id < n ==> #[trigger] out_count(g.edges@, id)
                == 3,
        exists|rare_draws: Seq<Seq<u32>>, tail_draws: Seq<Seq<u32>>|
            #[trigger] high_degree_shape(n as nat, 1, g.edges@, rare_draws, tail_draws),
{
    let g = high_degree_rare(n, 1, seed);
    assert forall|id: int|
        hub_count(n as nat) <= id < hub_count(n as nat) + rare_count(n as nat) implies #[trigger] out_count(
        g.edges@,
        id,
    ) == 1 by {}
    g
}

/// The pairs among `draws` whose two ends differ, in draw order.
pub open spec fn distinct_pairs(draws: Seq<(u32, u32)>) -> Seq<(u32, u32)>
    decreases draws.len(),
{
    if draws.len() == 0 {
        Seq::empty()
    } else {
        let p = draws.last();
        distinct_pairs(draws.drop_last()) + if p.0 != p.1 {
            seq![p]
        } else {
            Seq::empty()
        }
    }
}

/// Whether `noise` is what `count` drawn pairs of nodes below `n` leave once
/// the pairs that drew one node twice are dropped.
pub open spec fn noise_from_draws(n: nat, count: nat, draws: Seq<(u32, u32)>, noise: Seq<(u32, u32)>) -> bool {
    &&& draws.len() == count
    &&& forall|i: int| 0 <= i < draws.len() ==> (#[trigger] draws[i]).0 < n && draws[i].1 < n
    &&& noise == distinct_pairs(draws)
}

proof fn lemma_distinct_pairs_props(draws: Seq<(u32, u32)>, n: nat)
    requires
        forall|i: int| 0 <= i < draws.len() ==> (#[trigger] draws[i]).0 < n && draws[i].1 < n,
    ensures
        distinct_pairs(draws).len() <= draws.len(),
        forall|i: int|
            0 <= i < distinct_pairs(draws).len() ==> (#[trigger] distinct_pairs(draws)[i]).0 != distinct_pairs(
                draws,
            )[i].1 && (distinct_pairs(draws)[i].0 as int) < n && (distinct_pairs(draws)[i].1 as int) < n,
    decreases draws.len(),
{
    if draws.len() > 0 {
        let d = draws.drop_last();
        assert forall|i: int| 0 <= i < d.len() implies (#[trigger] d[i]).0 < n && d[i].1 < n by {
            assert(d[i] == draws[i]);
        }
        lemma_distinct_pairs_props(d, n);
        let p = draws.last();
        assert(p == draws[draws.len() - 1]);
        let ps = distinct_pairs(draws);
        assert forall|i: int| 0 <= i < ps.len() implies (#[trigger] ps[i]).0 != ps[i].1 && (ps[i].0 as int)
            < n && (ps[i].1 as int) < n by {
            if i < distinct_pairs(d).len() {
                assert(ps[i] == distinct_pairs(d)[i]);
            } else {
                assert(ps[i] == p);
            }
        }
    }
}

/// Noise edges of adversarial graph (D): `n_noise` draws of a node pair from a
/// generator seeded with `seed + 1` (wrapping); a pair that draws the same
/// node twice is dropped. Which nodes are drawn is not stated.
pub fn noise_edges(n: usize, n_noise: usize, seed: u64) -> (noise: Vec<(u32, u32)>)
    requires
        0 < n <= 0x1_0000_0000,
    ensures
        noise.len() <= n_noise,
        forall|i: int|
            0 <= i < noise.len() ==> (#[trigger] noise[i]).0 != noise[i].1 && (noise[i].0 as int) < n
                && (noise[i].1 as int) < n,
        exists|draws: Seq<(u32, u32)>| #[trigger] noise_from_draws(n as nat, n_noise as nat, draws, noise@),
{
    let mut rng = seeded_rng(seed.wrapping_add(1));
    let mut noise: Vec<(u32, u32)> = Vec::new();
    let ghost mut draws: Seq<(u32, u32)> = Seq::empty();
    let mut t: usize = 0;
    while t < n_noise
        invariant
            0 < n <= 0x1_0000_0000,
            t <= n_noise,
            noise_from_draws(n as nat, t as nat, draws, noise@),
        decreases n_noise - t,
    {
        let u = draw_below(&mut rng, n) as u32;
        let v = draw_below(&mut rng, n) as u32;
        let ghost before = draws;
        if u != v {
            noise.push((u, v));
        }
        proof {
            draws = draws.push((u, v));
            assert(draws.drop_last() =~= before);
            assert(draws.last() == (u, v));
            assert forall|i: int| 0 <= i < draws.len() implies (#[trigger] draws[i]).0 < n && draws[i].1 < n by {
                if i < before.len() {
                    assert(draws[i] == before[i]);
                }
            }
            assert(noise@ =~= distinct_pairs(draws));
        }
        t = t + 1;
    }
    proof {
        lemma_distinct_pairs_props(draws, n as nat);
    }
    assert(noise_from_draws(n as nat, n_noise as nat, draws, noise@));
    noise
}

/// Edge `e` joins a node to a hub: its target is a hub, and its source is a
/// hub or a node below `end`.
pub open spec fn hub_edge(e: (u32, u32), h: nat, end: nat) -> bool {
    (e.1 as int) < h && ((e.0 as int) < h || (e.0 as int) < end)
}

/// 85% of `len`, rounded down.
pub open spec fn decay_keep(len: nat) -> nat {
    (len * 85 / 100) as nat
}

/// The node count of snapshot `s`: the hubs plus `s + 1` steps of
/// `(n - h) / steps` new nodes, at most `n`.
pub open spec fn snapshot_nodes(n: nat, steps: nat, s: int) -> int {
    let h = hub_count(n);
    let end = h + (s + 1) * ((n - h) / (steps as int));
    if end < n {
        end
    } else {
        n as int
    }
}

/// The last `keep` edges of `edges`.
fn keep_newest(edges: &Vec<(u32, u32)>, keep: usize) -> (kept: Vec<(u32, u32)>)
    requires
        keep <= edges.len(),
    ensures
        kept@ == edges@.skip(edges.len() - keep),
{
    let start = edges.len() - keep;
    let mut kept: Vec<(u32, u32)> = Vec::new();
    let mut i: usize = start;
    while i < edges.len()
        invariant
            start <= i <= edges.len(),
            start == edges.len() - keep,
            kept@ == edges@.subrange(start as int, i as int),
        decreases edges.len() - i,
    {
        kept.push(edges[i]);
        i = i + 1;
        assert(kept@ =~= edges@.subrange(start as int, i as int));
    }
    assert(kept@ =~= edges@.skip(start as int));
    kept
}

/// A copy of the edges.
fn copy_edges(edges: &Vec<(u32, u32)>) -> (copy: Vec<(u32, u32)>)
    ensures
        copy@ == edges@,
{
    let mut copy: Vec<(u32, u32)> = Vec::new();
    let mut i: usize = 0;
    while i < edges.len()
        invariant
            i <= edges.len(),
            copy@ == edges@.take(i as int),
        decreases edges.len() - i,
    {
        copy.push(edges[i]);
        i = i + 1;
        assert(copy@ =~= edges@.take(i as int));
    }
    assert(copy@ =~= edges@);
    copy
}

/// Adversarial graph (E), temporal evolution: snapshots of a growing graph.
/// It starts from the hub clique; each of the `n_steps` steps adds the next
/// `(n - h) / n_steps` nodes (rare nodes with 1 drawn hub, tail nodes with 3),
/// then drops the oldest edges so that 85% of them, rounded down, remain.
pub fn temporal_snapshots(n: usize, n_steps: usize, seed: u64) -> (snaps: Vec<GeneratedGraph>)
    requires
        n <= 0xffff_ffff,
        n_steps > 0 ==> n >= hub_count(n as nat),
    ensures
        snaps.len() == n_steps,
        forall|s: int|
            0 <= s < n_steps ==> {
                &&& (#[trigger] snaps[s]).rare@ == id_range(
                    hub_count(n as nat) as int,
                    (hub_count(n as nat) + rare_count(n as nat)) as int,
                )
                &&& snaps[s].n_nodes == snapshot_nodes(n as nat, n_steps as nat, s)
                &&& forall|i: int|
                    0 <= i < snaps[s].edges.len() ==> hub_edge(
                        #[trigger] snaps[s].edges[i],
                        hub_count(n as nat),
                        snaps[s].n_nodes as nat,
                    )
            },
{
    let mut rng = seeded_rng(seed);
    let r: usize = if n / 20 > 1 {
        n / 20
    } else {
        1
    };
    let h: usize = if n / 50 > 2 {
        n / 50
    } else {
        2
    };
    let mut edges: Vec<(u32, u32)> = Vec::new();
    push_clique(&mut edges, h);
    proof {
        lemma_clique_sources(h as int, h as int);
        lemma_clique_targets(h as int, h as int);
    }
    let mut snaps: Vec<GeneratedGraph> = Vec::new();
    let mut step: usize = 0;
    let ghost mut lim: int = 0;
    while step < n_steps
        invariant
            h == hub_count(n as nat),
            r == rare_count(n as nat),
            n <= 0xffff_ffff,
            n_steps > 0 ==> n >= h,
            h + r <= n || h + r <= 3,
            step <= n_steps,
            snaps.len() == step,
            forall|s: int|
                0 <= s < step ==> {
                    &&& (#[trigger] snaps[s]).rare@ == id_range(h as int, (h + r) as int)
                    &&& snaps[s].n_nodes == snapshot_nodes(n as nat, n_steps as nat, s)
                    &&& forall|i: int|
                        0 <= i < snaps[s].edges.len() ==> hub_edge(
                            #[trigger] snaps[s].edges[i],
                            h as nat,
                            snaps[s].n_nodes as nat,
                        )
                },
            0 <= lim,
            step == 0 ==> lim == 0,
            step > 0 ==> lim <= h + step * ((n - h) as int / n_steps as int),
            forall|i: int| 0 <= i < edges.len() ==> hub_edge(#[trigger] edges[i], h as nat, lim as nat),
        decreases n_steps - step,
    {
        let n_new = (n - h) / n_steps;
        proof {
            assert((step + 1) * n_new <= n - h) by (nonlinear_arith)
                requires
                    step < n_steps,
                    n_new as int == (n - h) as int / n_steps as int,
                    n >= h,
            ;
            assert((step + 1) * n_new == step * n_new + n_new) by (nonlinear_arith);
        }
        let start = h + step * n_new;
        let end = if start + n_new < n {
            start + n_new
        } else {
            n
        };
        let mut id: usize = start;
        proof {
            assert forall|i: int| 0 <= i < edges.len() implies hub_edge(#[trigger] edges[i], h as nat, id as nat) by {
                assert(hub_edge(edges[i], h as nat, lim as nat));
            }
        }
        while id < end
            invariant
                h == hub_count(n as nat),
                id <= end,
                r == rare_count(n as nat),
                h + r <= n || h + r <= 3,
                0 < h,
                n <= 0xffff_ffff,
                start <= id,
                end <= n,
                forall|i: int| 0 <= i < edges.len() ==> hub_edge(#[trigger] edges[i], h as nat, id as nat),
            decreases end - id,
        {
            let degree: usize = if id < h + r {
                1
            } else {
                3
            };
            let mut k: usize = 0;
            while k < degree
                invariant
                    0 < h,
                    h == hub_count(n as nat),
                    id < end <= n,
                    n <= 0xffff_ffff,
                    forall|i: int| 0 <= i < edges.len() ==> hub_edge(#[trigger] edges[i], h as nat, (id + 1) as nat),
                decreases degree - k,
            {
                let hub = draw_below(&mut rng, h) as u32;
                edges.push((id as u32, hub));
                k = k + 1;
            }
            id = id + 1;
        }
        let len = edges.len();
        let keep = len / 100 * 85 + (len % 100) * 85 / 100;
        assert(keep == decay_keep(len as nat)) by (nonlinear_arith)
            requires
                keep == len / 100 * 85 + (len % 100) * 85 / 100,
        ;
        if len > keep {
            let ghost old_edges = edges@;
            edges = keep_newest(&edges, keep);
            proof {
                assert forall|i: int| 0 <= i < edges.len() implies hub_edge(#[trigger] edges[i], h as nat, end as nat) by {
                    assert(edges[i] == old_edges[i + (len - keep)]);
                }
            }
        }
        let snap_edges = copy_edges(&edges);
        let mut rare: Vec<u32> = Vec::new();
        let mut i: usize = 0;
        while i < r
            invariant
                i <= r,
                h + r <= n || h + r <= 3,
                n <= 0xffff_ffff,
                rare@ == id_range(h as int, h + i),
            decreases r - i,
        {
            rare.push((h + i) as u32);
            assert(rare@ =~= id_range(h as int, h + i + 1));
            i = i + 1;
        }
        assert(end == snapshot_nodes(n as nat, n_steps as nat, step as int));
        snaps.push(GeneratedGraph { n_nodes: end, edges: snap_edges, rare });
        proof {
            lim = end as int;
        }
        step = step + 1;
    }
    snaps
}

/// The nodes below `m`, in increasing order, of degree exactly one.
pub open spec fn degree_one_upto(edges: Seq<(u32, u32)>, m: int) -> Seq<u32>
    decreases m,
{
    if m <= 0 {
        Seq::empty()
    } else if degree_of(edges, m - 1) == 1 {
        degree_one_upto(edges, m - 1).push((m - 1) as u32)
    } else {
        degree_one_upto(edges, m - 1)
    }
}

/// The rare ground truth of graph (C): the nodes of degree exactly one.
pub fn degree_one_nodes(n: usize, edges: &Vec<(u32, u32)>) -> (rare: Vec<u32>)
    requires
        n <= 0x1_0000_0000,
        2 * edges.len() <= usize::MAX,
    ensures
        rare@ == degree_one_upto(edges@, n as int),
{
    let deg = compute_degrees(n, edges);
    let mut rare: Vec<u32> = Vec::new();
    let mut u: usize = 0;
    while u < n
        invariant
            u <= n,
            n <= 0x1_0000_0000,
            deg.len() == n,
            forall|x: int| 0 <= x < n ==> #[trigger] deg[x] == degree_of(edges@, x),
            rare@ == degree_one_upto(edges@, u as int),
        decreases n - u,
    {
        if deg[u] == 1 {
            rare.push(u as u32);
        }
        u = u + 1;
    }
    rare
}

/// The edges of one member of a redundant cluster: one to each hub of the
/// cluster's pattern, and, for every member but the first, one to the first.
pub open spec fn member_edges(id: u32, pattern: Seq<u32>, head: u32, m: int) -> Seq<(u32, u32)> {
    pattern.map_values(|hub: u32| (id, hub)) + (if m > 0 {
        seq![(id, head)]
    } else {
        Seq::empty()
    })
}

/// The edges of the first `m` members of cluster `c`, whose members are
/// `start + 5c .. start + 5c + 5`.
pub open spec fn cluster_edges(start: int, c: int, pattern: Seq<u32>, m: int) -> Seq<(u32, u32)>
    decreases m,
{
    if m <= 0 {
        Seq::empty()
    } else {
        cluster_edges(start, c, pattern, m - 1) + member_edges(
            (start + 5 * c + m - 1) as u32,
            pattern,
            (start + 5 * c) as u32,
            m - 1,
        )
    }
}

/// The edges of the first `c` clusters.
pub open spec fn clusters_edges(start: int, patterns: Seq<Seq<u32>>, c: int) -> Seq<(u32, u32)>
    decreases c,
{
    if c <= 0 {
        Seq::empty()
    } else {
        clusters_edges(start, patterns, c - 1) + cluster_edges(start, c - 1, patterns[c - 1], 5)
    }
}

/// Edges `(first + i, hubs[i])`.
pub open spec fn single_hub_edges(first: int, hubs: Seq<u32>) -> Seq<(u32, u32)> {
    Seq::new(hubs.len(), |i: int| ((first + i) as u32, hubs[i]))
}

/// Draws the hub pattern of a cluster: 2 to 4 hub draws, repeats dropped.
fn draw_pattern(rng: &mut SmallRng, h: usize) -> (pattern: Vec<u32>)
    requires
        0 < h <= 0xffff_ffff,
    ensures
        1 <= pattern.len() <= 4,
        forall|i: int| 0 <= i < pattern.len() ==> (#[trigger] pattern[i] as int) < h,
        forall|i: int, j: int| 0 <= i < j < pattern.len() ==> #[trigger] pattern[i] != #[trigger] pattern[j],
{
    let count = draw_i32_between(rng, 2, 4);
    let mut pattern: Vec<u32> = Vec::new();
    let mut t: i32 = 0;
    while t < count
        invariant
            0 < h <= 0xffff_ffff,
            0 <= t <= count <= 4,
            pattern.len() <= t,
            t >= 1 ==> pattern.len() >= 1,
            forall|i: int| 0 <= i < pattern.len() ==> (#[trigger] pattern[i] as int) < h,
            forall|i: int, j: int| 0 <= i < j < pattern.len() ==> #[trigger] pattern[i] != #[trigger] pattern[j],
        decreases count - t,
    {
        let hub = draw_below(rng, h) as u32;
        let mut seen = false;
        let mut p: usize = 0;
        while p < pattern.len()
            invariant
                p <= pattern.len(),
                seen == exists|q: int| 0 <= q < p && pattern[q] == hub,
            decreases pattern.len() - p,
        {
            if pattern[p] == hub {
                seen = true;
            }
            p = p + 1;
        }
        if !seen {
            let ghost before = pattern@;
            pattern.push(hub);
            proof {
                assert forall|i: int, j: int| 0 <= i < j < pattern.len() implies #[trigger] pattern[i]
                    != #[trigger] pattern[j] by {
                    if j == pattern.len() - 1 && pattern[i] == hub {
                        assert(exists|q: int| 0 <= q < before.len() && before[q] == hub);
                    }
                }
            }
        }
        t = t + 1;
    }
    pattern
}

/// Appends the edges of one cluster member.
fn push_member(edges: &mut Vec<(u32, u32)>, id: u32, pattern: &Vec<u32>, head: u32, m: usize)
    ensures
        final(edges)@ == old(edges)@ + member_edges(id, pattern@, head, m as int),
{
    let ghost start = edges@;
    let mut p: usize = 0;
    while p < pattern.len()
        invariant
            p <= pattern.len(),
            edges@ == start + pattern@.take(p as int).map_values(|hub: u32| (id, hub)),
        decreases pattern.len() - p,
    {
        edges.push((id, pattern[p]));
        p = p + 1;
        assert(edges@ =~= start + pattern@.take(p as int).map_values(|hub: u32| (id, hub)));
    }
    assert(pattern@.take(pattern.len() as int) =~= pattern@);
    if m > 0 {
        edges.push((id, head));
    }
    assert(edges@ =~= start + member_edges(id, pattern@, head, m as int));
}

/// The tail of `n` nodes after hubs and rare nodes, its cluster count, and
/// what a long-tail graph on `n` nodes consists of, given the hubs that were
/// drawn: each rare node's hub, each cluster's pattern, and each left-over
/// tail node's hub.
pub open spec fn long_tail_shape(
    n: nat,
    edges: Seq<(u32, u32)>,
    rare_hubs: Seq<u32>,
    patterns: Seq<Seq<u32>>,
    left_hubs: Seq<u32>,
) -> bool {
    let h = hub_count(n) as int;
    let r = rare_count(n) as int;
    let start = h + r;
    let tail = if n > start { n - start } else { 0 };
    let nc = tail / 5;
    &&& rare_hubs.len() == r
    &&& forall|i: int| 0 <= i < r ==> (#[trigger] rare_hubs[i] as int) < h
    &&& patterns.len() == nc
    &&& forall|c: int|
        0 <= c < nc ==> {
            &&& 1 <= (#[trigger] patterns[c]).len() <= 4
            &&& forall|i: int| 0 <= i < patterns[c].len() ==> (#[trigger] patterns[c][i] as int) < h
            &&& forall|i: int, j: int|
                0 <= i < j < patterns[c].len() ==> #[trigger] patterns[c][i] != #[trigger] patterns[c][j]
        }
    &&& left_hubs.len() == tail - 5 * nc
    &&& forall|i: int| 0 <= i < left_hubs.len() ==> (#[trigger] left_hubs[i] as int) < h
    &&& edges == clique_rows(h, h) + single_hub_edges(h, rare_hubs) + clusters_edges(start, patterns, nc)
        + single_hub_edges(start + 5 * nc, left_hubs)
}

/// Benchmark graph with redundancy: hubs in a clique, rare nodes `h .. h + r`
/// each linked to one drawn hub, then the tail `h + r .. n` in clusters of 5
/// nodes sharing a drawn pattern of 1 to 4 distinct hubs (every member
/// linked to each hub of the pattern, and every member but the first also to
/// the first), and the tail nodes left over each linked to one drawn hub.
/// The hubs of a pattern are listed in the order they were first drawn.
pub fn long_tail_graph(n: usize, seed: u64) -> (g: GeneratedGraph)
    requires
        n <= 0xffff_ffff,
    ensures
        g.n_nodes == n,
        g.rare@ == id_range(hub_count(n as nat) as int, (hub_count(n as nat) + rare_count(n as nat)) as int),
        exists|rare_hubs: Seq<u32>, patterns: Seq<Seq<u32>>, left_hubs: Seq<u32>|
            #[trigger] long_tail_shape(n as nat, g.edges@, rare_hubs, patterns, left_hubs),
{
    let h: usize = if n / 50 > 2 {
        n / 50
    } else {
        2
    };
    let r: usize = if n / 20 > 1 {
        n / 20
    } else {
        1
    };
    let mut rng = seeded_rng(seed);
    let mut edges: Vec<(u32, u32)> = Vec::new();
    push_clique(&mut edges, h);
    let ghost clique = edges@;
    let mut rare: Vec<u32> = Vec::new();
    let mut rare_hubs: Vec<u32> = Vec::new();
    let mut i: usize = 0;
    while i < r
        invariant
            h == hub_count(n as nat),
            r == rare_count(n as nat),
            n <= 0xffff_ffff,
            h + r <= n || h + r <= 3,
            i <= r,
            clique == clique_rows(h as int, h as int),
            rare_hubs.len() == i,
            forall|x: int| 0 <= x < i ==> (#[trigger] rare_hubs[x] as int) < h,
            edges@ == clique + single_hub_edges(h as int, rare_hubs@),
            rare@ == id_range(h as int, h + i),
        decreases r - i,
    {
        let id = (h + i) as u32;
        let hub = draw_below(&mut rng, h) as u32;
        edges.push((id, hub));
        rare_hubs.push(hub);
        rare.push(id);
        assert(rare@ =~= id_range(h as int, h + i + 1));
        i = i + 1;
        assert(edges@ =~= clique + single_hub_edges(h as int, rare_hubs@));
    }
    let start = h + r;
    let tail = if n > start {
        n - start
    } else {
        0
    };
    let nc = tail / 5;
    let ghost before_clusters = edges@;
    let ghost mut patterns: Seq<Seq<u32>> = Seq::empty();
    let mut c: usize = 0;
    while c < nc
        invariant
            h == hub_count(n as nat),
            0 < h,
            n <= 0xffff_ffff,
            start == h + r,
            start + tail <= n || tail == 0,
            nc == tail / 5,
            c <= nc,
            patterns.len() == c,
            forall|x: int|
                0 <= x < c ==> {
                    &&& 1 <= (#[trigger] patterns[x]).len() <= 4
                    &&& forall|i: int| 0 <= i < patterns[x].len() ==> (#[trigger] patterns[x][i] as int) < h
                    &&& forall|i: int, j: int|
                        0 <= i < j < patterns[x].len() ==> #[trigger] patterns[x][i] != #[trigger] patterns[x][j]
                },
            edges@ == before_clusters + clusters_edges(start as int, patterns, c as int),
        decreases nc - c,
    {
        let pattern = draw_pattern(&mut rng, h);
        let head = (start + c * 5) as u32;
        let ghost cluster_base = edges@;
        let mut m: usize = 0;
        while m < 5
            invariant
                m <= 5,
                c < nc,
                nc == tail / 5,
                start + tail <= n || tail == 0,
                n <= 0xffff_ffff,
                head as int == start + 5 * c,
                edges@ == cluster_base + cluster_edges(start as int, c as int, pattern@, m as int),
            decreases 5 - m,
        {
            let id = (start + c * 5 + m) as u32;
            push_member(&mut edges, id, &pattern, head, m);
            m = m + 1;
        }
        proof {
            let ps = patterns.push(pattern@);
            assert(ps[c as int] == pattern@);
            assert(clusters_edges(start as int, ps, c as int) == clusters_edges(start as int, patterns, c as int)) by {
                lemma_clusters_edges_frame(start as int, patterns, ps, c as int);
            }
            patterns = ps;
        }
        c = c + 1;
    }
    let ghost before_left = edges@;
    let mut left_hubs: Vec<u32> = Vec::new();
    let mut id: usize = start + nc * 5;
    while id < n
        invariant
            h == hub_count(n as nat),
            0 < h,
            n <= 0xffff_ffff,
            start == h + r,
            tail == (if n > start { n - start } else { 0 }),
            nc == tail / 5,
            start + nc * 5 <= id,
            id <= n || id == start + nc * 5,
            left_hubs.len() == id - (start + nc * 5),
            forall|x: int| 0 <= x < left_hubs.len() ==> (#[trigger] left_hubs[x] as int) < h,
            edges@ == before_left + single_hub_edges(start + nc * 5, left_hubs@),
        decreases n - id,
    {
        let hub = draw_below(&mut rng, h) as u32;
        edges.push((id as u32, hub));
        left_hubs.push(hub);
        id = id + 1;
        assert(edges@ =~= before_left + single_hub_edges(start + nc * 5, left_hubs@));
    }
    proof {
        assert(left_hubs.len() == tail - 5 * nc);
        assert(edges@ =~= clique_rows(h as int, h as int) + single_hub_edges(h as int, rare_hubs@)
            + clusters_edges(start as int, patterns, nc as int) + single_hub_edges(
            start + 5 * nc,
            left_hubs@,
        ));
    }
    let g = GeneratedGraph { n_nodes: n, edges, rare };
    assert(long_tail_shape(n as nat, g.edges@, rare_hubs@, patterns, left_hubs@));
    g
}

/// Number of hubs of the sparse benchmark graph: one per 1000 nodes, at
/// least 10.
pub open spec fn sparse_hub_count(n: nat) -> nat {
    if n / 1000 > 10 {
        n / 1000
    } else {
        10
    }
}

/// The hub edges `(u, targets[u][k])`, hub by hub.
pub open spec fn hub_rows(targets: Seq<Seq<u32>>) -> Seq<(u32, u32)>
    decreases targets.len(),
{
    if targets.len() == 0 {
        Seq::empty()
    } else {
        let u = targets.len() - 1;
        hub_rows(targets.drop_last()) + targets[u].map_values(|v: u32| (u as u32, v))
    }
}

/// Edges `(first + i / 3, hubs[i])`: three per node from `first` on.
pub open spec fn triple_hub_edges(first: int, hubs: Seq<u32>) -> Seq<(u32, u32)> {
    Seq::new(hubs.len(), |i: int| ((first + i / 3) as u32, hubs[i]))
}

/// What a sparse graph on `n` nodes consists of, given the draws: each
/// hub's kept targets (at most 20, other hubs), each rare node's hub, and
/// the three hubs of each tail node.
pub open spec fn sparse_shape(
    n: nat,
    edges: Seq<(u32, u32)>,
    targets: Seq<Seq<u32>>,
    rare_hubs: Seq<u32>,
    tail_hubs: Seq<u32>,
) -> bool {
    let h = sparse_hub_count(n) as int;
    let r = (n / 20) as int;
    let start = h + r;
    let tail = if n > start { n - start } else { 0 };
    &&& targets.len() == h
    &&& forall|u: int|
        0 <= u < h ==> {
            &&& (#[trigger] targets[u]).len() <= 20
            &&& forall|k: int| 0 <= k < targets[u].len() ==> (#[trigger] targets[u][k] as int) < h && targets[u][k] != u
        }
    &&& rare_hubs.len() == r
    &&& forall|i: int| 0 <= i < r ==> (#[trigger] rare_hubs[i] as int) < h
    &&& tail_hubs.len() == 3 * tail
    &&& forall|i: int| 0 <= i < tail_hubs.len() ==> (#[trigger] tail_hubs[i] as int) < h
    &&& edges == hub_rows(targets) + single_hub_edges(h, rare_hubs) + triple_hub_edges(start, tail_hubs)
}

/// Sparse benchmark graph for scaling runs, with a number of edges linear in
/// `n`: each hub draws 20 hubs and links to those other than itself; rare
/// nodes `h .. h + n / 20` each link to one drawn hub; every later node links
/// to three drawn hubs.
pub fn sparse_graph(n: usize, seed: u64) -> (g: GeneratedGraph)
    requires
        n <= 0xffff_ffff,
    ensures
        g.n_nodes == n,
        g.rare@ == id_range(sparse_hub_count(n as nat) as int, sparse_hub_count(n as nat) + n / 20),
        exists|targets: Seq<Seq<u32>>, rare_hubs: Seq<u32>, tail_hubs: Seq<u32>|
            #[trigger] sparse_shape(n as nat, g.edges@, targets, rare_hubs, tail_hubs),
{
    let h: usize = if n / 1000 > 10 {
        n / 1000
    } else {
        10
    };
    let r: usize = n / 20;
    let mut rng = seeded_rng(seed);
    let mut edges: Vec<(u32, u32)> = Vec::new();
    let ghost mut targets: Seq<Seq<u32>> = Seq::empty();
    let mut u: usize = 0;
    while u < h
        invariant
            h == sparse_hub_count(n as nat),
            n <= 0xffff_ffff,
            u <= h,
            targets.len() == u,
            forall|w: int|
                0 <= w < u ==> {
                    &&& (#[trigger] targets[w]).len() <= 20
                    &&& forall|k: int| 0 <= k < targets[w].len() ==> (#[trigger] targets[w][k] as int) < h && targets[w][k] != w
                },
            edges@ == hub_rows(targets),
        decreases h - u,
    {
        let ghost row_start = edges@;
        let ghost mut row: Seq<u32> = Seq::empty();
        let mut t: usize = 0;
        while t < 20
            invariant
                h == sparse_hub_count(n as nat),
                n <= 0xffff_ffff,
                u < h,
                t <= 20,
                row.len() <= t,
                forall|k: int| 0 <= k < row.len() ==> (#[trigger] row[k] as int) < h && row[k] != u,
                edges@ == row_start + row.map_values(|v: u32| (u as u32, v)),
            decreases 20 - t,
        {
            let v = draw_below(&mut rng, h) as u32;
            if (u as u32) != v {
                edges.push((u as u32, v));
                proof {
                    row = row.push(v);
                }
                assert(edges@ =~= row_start + row.map_values(|v: u32| (u as u32, v)));
            }
            t = t + 1;
        }
        proof {
            let ts = targets.push(row);
            assert(ts.drop_last() =~= targets);
            assert(hub_rows(ts) == hub_rows(targets) + row.map_values(|v: u32| (u as u32, v)));
            targets = ts;
        }
        u = u + 1;
    }
    let ghost before_rare = edges@;
    let mut rare: Vec<u32> = Vec::new();
    let mut rare_hubs: Vec<u32> = Vec::new();
    let mut i: usize = 0;
    while i < r
        invariant
            h == sparse_hub_count(n as nat),
            r == n / 20,
            n <= 0xffff_ffff,
            i <= r,
            rare_hubs.len() == i,
            forall|x: int| 0 <= x < i ==> (#[trigger] rare_hubs[x] as int) < h,
            edges@ == before_rare + single_hub_edges(h as int, rare_hubs@),
            rare@ == id_range(h as int, h + i),
        decreases r - i,
    {
        let id = (h + i) as u32;
        let hub = draw_below(&mut rng, h) as u32;
        edges.push((id, hub));
        rare_hubs.push(hub);
        rare.push(id);
        assert(rare@ =~= id_range(h as int, h + i + 1));
        i = i + 1;
        assert(edges@ =~= before_rare + single_hub_edges(h as int, rare_hubs@));
    }
    let start = h + r;
    let ghost before_tail = edges@;
    let mut tail_hubs: Vec<u32> = Vec::new();
    let mut id: usize = start;
    while id < n
        invariant
            h == sparse_hub_count(n as nat),
            start == h + r,
            n <= 0xffff_ffff,
            start <= id,
            id <= n || id == start,
            tail_hubs.len() == 3 * (id - start),
            forall|x: int| 0 <= x < tail_hubs.len() ==> (#[trigger] tail_hubs[x] as int) < h,
            edges@ == before_tail + triple_hub_edges(start as int, tail_hubs@),
        decreases n - id,
    {
        let mut t: usize = 0;
        while t < 3
            invariant
                h == sparse_hub_count(n as nat),
                start <= id < n,
                n <= 0xffff_ffff,
                t <= 3,
                tail_hubs.len() == 3 * (id - start) + t,
                forall|x: int| 0 <= x < tail_hubs.len() ==> (#[trigger] tail_hubs[x] as int) < h,
                edges@ == before_tail + triple_hub_edges(start as int, tail_hubs@),
            decreases 3 - t,
        {
            let hub = draw_below(&mut rng, h) as u32;
            edges.push((id as u32, hub));
            tail_hubs.push(hub);
            t = t + 1;
            assert(edges@ =~= before_tail + triple_hub_edges(start as int, tail_hubs@)) by {
                let k = tail_hubs.len() - 1;
                assert(k / 3 == id - start) by (nonlinear_arith)
                    requires
                        k == 3 * (id - start) + t - 1,
                        1 <= t <= 3,
                        id >= start;
            }
        }
        id = id + 1;
    }
    proof {
        assert(edges@ =~= hub_rows(targets) + single_hub_edges(h as int, rare_hubs@) + triple_hub_edges(
            start as int,
            tail_hubs@,
        ));
    }
    let g = GeneratedGraph { n_nodes: n, edges, rare };
    assert(sparse_shape(n as nat, g.edges@, targets, rare_hubs@, tail_hubs@));
    g
}

/// Whether two pairs join the same two nodes, in either order.
pub open spec fn same_pair(a: (u32, u32), b: (u32, u32)) -> bool {
    (a.0 == b.0 && a.1 == b.1) || (a.0 == b.1 && a.1 == b.0)
}

/// Whether some edge joins `u` and `v`, in either order.
pub open spec fn has_pair(edges: Seq<(u32, u32)>, u: u32, v: u32) -> bool {
    exists|i: int| 0 <= i < edges.len() && #[trigger] same_pair(edges[i], (u, v))
}

/// A simple edge list on nodes `0..n`: no loops, and no two edges joining
/// the same two nodes.
pub open spec fn simple_pairs(edges: Seq<(u32, u32)>, n: nat) -> bool {
    &&& forall|i: int| 0 <= i < edges.len() ==> (#[trigger] edges[i]).0 != edges[i].1 && edges[i].0 < n && edges[i].1 < n
    &&& forall|i: int, j: int| 0 <= i < j < edges.len() ==> !same_pair(#[trigger] edges[i], #[trigger] edges[j])
}

/// Adds the edge `(u, v)` of graph (C) when it is no loop and joins two
/// nodes that no edge joins yet; tells whether it was added.
pub fn add_unique_pair(n: usize, edges: &mut Vec<(u32, u32)>, u: u32, v: u32) -> (added: bool)
    requires
        simple_pairs(old(edges)@, n as nat),
        (u as int) < n,
        (v as int) < n,
    ensures
        added == (u != v && !has_pair(old(edges)@, u, v)),
        final(edges)@ == if added {
            old(edges)@.push((u, v))
        } else {
            old(edges)@
        },
        simple_pairs(final(edges)@, n as nat),
{
    if u == v {
        return false;
    }
    let mut i: usize = 0;
    while i < edges.len()
        invariant
            i <= edges.len(),
            edges@ == old(edges)@,
            simple_pairs(edges@, n as nat),
            forall|j: int| 0 <= j < i ==> !same_pair(#[trigger] edges[j], (u, v)),
        decreases edges.len() - i,
    {
        let e = edges[i];
        if (e.0 == u && e.1 == v) || (e.0 == v && e.1 == u) {
            assert(same_pair(edges[i as int], (u, v)));
            return false;
        }
        i = i + 1;
    }
    let ghost before = edges@;
    edges.push((u, v));
    proof {
        assert forall|a: int, b: int| 0 <= a < b < edges.len() implies !same_pair(
            #[trigger] edges[a],
            #[trigger] edges[b],
        ) by {
            if b == before.len() {
                assert(edges[a] == before[a]);
                assert(!same_pair(before[a], (u, v)));
            } else {
                assert(edges[a] == before[a]);
                assert(edges[b] == before[b]);
            }
        }
        assert forall|a: int| 0 <= a < edges.len() implies (#[trigger] edges[a]).0 != edges[a].1 && edges[a].0 < n
            && edges[a].1 < n by {
            if a < before.len() {
                assert(edges[a] == before[a]);
            }
        }
    }
    true
}

proof fn lemma_cluster_endpoints(start: int, c: int, pattern: Seq<u32>, m: int, h: int)
    requires
        0 <= h <= start,
        0 <= c,
        0 <= m <= 5,
        start + 5 * c + 5 <= 0x1_0000_0000,
        forall|i: int| 0 <= i < pattern.len() ==> (#[trigger] pattern[i] as int) < h,
    ensures
        forall|i: int|
            0 <= i < cluster_edges(start, c, pattern, m).len() ==> {
                let e = #[trigger] cluster_edges(start, c, pattern, m)[i];
                &&& start + 5 * c <= e.0 < start + 5 * c + 5
                &&& (e.1 < h || start + 5 * c <= e.1 < start + 5 * c + 5)
            },
    decreases m,
{
    if m > 0 {
        lemma_cluster_endpoints(start, c, pattern, m - 1, h);
        let prev = cluster_edges(start, c, pattern, m - 1);
        let me = member_edges((start + 5 * c + m - 1) as u32, pattern, (start + 5 * c) as u32, m - 1);
        assert forall|i: int| 0 <= i < cluster_edges(start, c, pattern, m).len() implies {
            let e = #[trigger] cluster_edges(start, c, pattern, m)[i];
            &&& start + 5 * c <= e.0 < start + 5 * c + 5
            &&& (e.1 < h || start + 5 * c <= e.1 < start + 5 * c + 5)
        } by {
            if i >= prev.len() {
                let k = i - prev.len();
                assert(cluster_edges(start, c, pattern, m)[i] == me[k]);
                if k < pattern.len() {
                    assert(me[k] == ((start + 5 * c + m - 1) as u32, pattern[k]));
                }
            } else {
                assert(cluster_edges(start, c, pattern, m)[i] == prev[i]);
            }
        }
    }
}

proof fn lemma_clusters_endpoints(start: int, patterns: Seq<Seq<u32>>, c: int, h: int)
    requires
        0 <= h <= start,
        0 <= c <= patterns.len(),
        start + 5 * c <= 0x1_0000_0000,
        forall|x: int|
            0 <= x < c ==> forall|i: int| 0 <= i < (#[trigger] patterns[x]).len() ==> (#[trigger] patterns[x][i] as int) < h,
    ensures
        forall|i: int|
            0 <= i < clusters_edges(start, patterns, c).len() ==> {
                let e = #[trigger] clusters_edges(start, patterns, c)[i];
                &&& start <= e.0 < start + 5 * c
                &&& (e.1 < h || start <= e.1 < start + 5 * c)
            },
    decreases c,
{
    if c > 0 {
        lemma_clusters_endpoints(start, patterns, c - 1, h);
        let p = patterns[c - 1];
        assert forall|i: int| 0 <= i < p.len() implies (#[trigger] p[i] as int) < h by {
            assert(patterns[c - 1][i] == p[i]);
        }
        lemma_cluster_endpoints(start, c - 1, p, 5, h);
        let prev = clusters_edges(start, patterns, c - 1);
        assert forall|i: int| 0 <= i < clusters_edges(start, patterns, c).len() implies {
            let e = #[trigger] clusters_edges(start, patterns, c)[i];
            &&& start <= e.0 < start + 5 * c
            &&& (e.1 < h || start <= e.1 < start + 5 * c)
        } by {
            if i >= prev.len() {
                assert(clusters_edges(start, patterns, c)[i] == cluster_edges(start, c - 1, p, 5)[i - prev.len()]);
            } else {
                assert(clusters_edges(start, patterns, c)[i] == prev[i]);
            }
        }
    }
}

/// In the benchmark graph with redundant clusters, each planted rare node
/// `h + k` lies on exactly one edge: the one from it to its drawn hub.
pub proof fn lemma_long_tail_rare_once(
    n: nat,
    edges: Seq<(u32, u32)>,
    rare_hubs: Seq<u32>,
    patterns: Seq<Seq<u32>>,
    left_hubs: Seq<u32>,
    k: int,
)
    requires
        n <= 0xffff_ffff,
        long_tail_shape(n, edges, rare_hubs, patterns, left_hubs),
        0 <= k < rare_count(n),
    ensures
        ({
            let h = hub_count(n) as int;
            let i0 = clique_rows(h, h).len() + k;
            &&& 0 <= i0 < edges.len()
            &&& edges[i0] == ((h + k) as u32, rare_hubs[k])
            &&& (rare_hubs[k] as int) < h
            &&& forall|i: int|
                0 <= i < edges.len() && i != i0 ==> (#[trigger] edges[i]).0 as int != h + k && edges[i].1 as int
                    != h + k
        }),
{
    let h = hub_count(n) as int;
    let r = rare_count(n) as int;
    let start = h + r;
    let tail = if n > start { n - start } else { 0 };
    let nc = tail / 5;
    let c = clique_rows(h, h);
    let a = single_hub_edges(h, rare_hubs);
    let b = clusters_edges(start, patterns, nc);
    let d = single_hub_edges(start + 5 * nc, left_hubs);
    assert(h + r <= n || h + r <= 3);
    assert(start + 5 * nc <= 0x1_0000_0000);
    lemma_clique_sources(h, h);
    lemma_clique_targets(h, h);
    lemma_clusters_endpoints(start, patterns, nc, h);
    let i0 = c.len() + k;
    assert(edges == c + a + b + d);
    assert(edges[i0] == a[k]);
    assert forall|i: int| 0 <= i < edges.len() && i != i0 implies (#[trigger] edges[i]).0 as int != h + k
        && edges[i].1 as int != h + k by {
        if i < c.len() {
            assert(edges[i] == c[i]);
        } else if i < c.len() + a.len() {
            assert(edges[i] == a[i - c.len()]);
        } else if i < c.len() + a.len() + b.len() {
            assert(edges[i] == b[i - c.len() - a.len()]);
        } else {
            let j = i - c.len() - a.len() - b.len();
            assert(edges[i] == d[j]);
            assert(start + 5 * nc + j < 0x1_0000_0000);
        }
    }
}

proof fn lemma_first_occurrences(d: Seq<u32>)
    ensures
        first_occurrences(d).len() <= d.len(),
        d.len() >= 1 ==> first_occurrences(d).len() >= 1,
        forall|i: int| 0 <= i < first_occurrences(d).len() ==> d.contains(#[trigger] first_occurrences(d)[i]),
        forall|i: int, j: int|
            0 <= i < j < first_occurrences(d).len() ==> #[trigger] first_occurrences(d)[i] != #[trigger] first_occurrences(
                d,
            )[j],
    decreases d.len(),
{
    if d.len() > 0 {
        let front = d.drop_last();
        lemma_first_occurrences(front);
        let f = first_occurrences(front);
        let g = first_occurrences(d);
        assert forall|i: int| 0 <= i < g.len() implies d.contains(#[trigger] g[i]) by {
            if i < f.len() {
                assert(g[i] == f[i]);
                let j = choose|j: int| 0 <= j < front.len() && front[j] == f[i];
                assert(d[j] == front[j]);
            } else {
                assert(d[d.len() - 1] == g[i]);
            }
        }
        assert forall|i: int, j: int| 0 <= i < j < g.len() implies #[trigger] g[i] != #[trigger] g[j] by {
            if j >= f.len() {
                assert(g[i] == f[i]);
                assert(f.contains(f[i]));
            } else {
                assert(g[i] == f[i]);
                assert(g[j] == f[j]);
            }
        }
        if f.len() == 0 {
            assert(!f.contains(d.last()));
        }
    }
}

/// The block of node `first + k`'s edges in `hub_rows_for`; returns where it
/// starts.
proof fn lemma_hub_rows_block(first: int, draws: Seq<Seq<u32>>, distinct: bool, k: int, bound: int) -> (o: int)
    requires
        0 <= k < draws.len(),
        0 <= first,
        first + draws.len() <= 0x1_0000_0000,
        forall|j: int, x: int| 0 <= j < draws.len() && 0 <= x < draws[j].len() ==> (#[trigger] draws[j][x] as int) < bound,
    ensures
        0 <= o,
        o + chosen_hubs(draws[k], distinct).len() <= hub_rows_for(first, draws, distinct).len(),
        hub_rows_for(first, draws, distinct).subrange(o, o + chosen_hubs(draws[k], distinct).len()) == edges_from(
            (first + k) as u32,
            chosen_hubs(draws[k], distinct),
        ),
        forall|i: int|
            0 <= i < hub_rows_for(first, draws, distinct).len() && !(o <= i < o + chosen_hubs(draws[k], distinct).len())
                ==> (#[trigger] hub_rows_for(first, draws, distinct)[i]).0 as int != first + k,
        forall|i: int|
            0 <= i < hub_rows_for(first, draws, distinct).len() ==> first <= (#[trigger] hub_rows_for(
                first,
                draws,
                distinct,
            )[i]).0 < first + draws.len() && (hub_rows_for(first, draws, distinct)[i].1 as int) < bound,
    decreases draws.len(),
{
    let m = draws.len();
    let front = draws.drop_last();
    let rows = hub_rows_for(first, draws, distinct);
    let last_block = edges_from((first + m - 1) as u32, chosen_hubs(draws[m - 1], distinct));
    assert(draws.last() == draws[m - 1]);
    assert forall|j: int, x: int| 0 <= j < front.len() && 0 <= x < front[j].len() implies (#[trigger] front[j][x] as int)
        < bound by {
        assert(front[j] == draws[j]);
    }
    lemma_first_occurrences(draws[m - 1]);
    let fr = if m > 1 {
        let kk = if k < m - 1 { k } else { 0 };
        lemma_hub_rows_block(first, front, distinct, kk, bound);
        hub_rows_for(first, front, distinct)
    } else {
        hub_rows_for(first, front, distinct)
    };
    assert(rows == fr + last_block);
    assert forall|i: int| 0 <= i < last_block.len() implies (#[trigger] last_block[i]).0 as int == first + m - 1 && (
    last_block[i].1 as int) < bound by {
        let c = chosen_hubs(draws[m - 1], distinct);
        assert(last_block[i] == ((first + m - 1) as u32, c[i]));
        if !distinct {
            assert(draws[m - 1][i] == c[i]);
        } else {
            let dl = draws[m - 1];
            assert(dl.contains(c[i]));
            let x = choose|x: int| 0 <= x < dl.len() && #[trigger] dl[x] == c[i];
        }
    }
    assert forall|i: int| 0 <= i < rows.len() implies first <= (#[trigger] rows[i]).0 < first + m && (rows[i].1 as int)
        < bound by {
        if i < fr.len() {
            assert(rows[i] == fr[i]);
        } else {
            assert(rows[i] == last_block[i - fr.len()]);
        }
    }
    if k == m - 1 {
        let o = fr.len() as int;
        assert(rows.subrange(o, o + last_block.len()) =~= last_block);
        assert forall|i: int| 0 <= i < rows.len() && !(o <= i < o + chosen_hubs(draws[k], distinct).len()) implies (
        #[trigger] rows[i]).0 as int != first + k by {
            assert(rows[i] == fr[i]);
        }
        o
    } else {
        let o = lemma_hub_rows_block(first, front, distinct, k, bound);
        assert(front[k] == draws[k]);
        let len = chosen_hubs(draws[k], distinct).len();
        assert(rows.subrange(o, o + len) =~= fr.subrange(o, o + len));
        assert forall|i: int| 0 <= i < rows.len() && !(o <= i < o + len) implies (#[trigger] rows[i]).0 as int != first
            + k by {
            if i < fr.len() {
                assert(rows[i] == fr[i]);
            } else {
                assert(rows[i] == last_block[i - fr.len()]);
            }
        }
        o
    }
}

/// In graph (A), rare node `h + k` lies on the edges to the distinct hubs of
/// its draws and on no other edge: from 1 (when `rare_degree` is positive)
/// to `min(rare_degree, h)` edges, each to a different hub below `h`.
pub proof fn lemma_high_degree_rare_node(
    n: nat,
    rare_degree: nat,
    edges: Seq<(u32, u32)>,
    rare_draws: Seq<Seq<u32>>,
    tail_draws: Seq<Seq<u32>>,
    k: int,
)
    requires
        n <= 0xffff_ffff,
        high_degree_shape(n, rare_degree, edges, rare_draws, tail_draws),
        0 <= k < rare_count(n),
    ensures
        ({
            let h = hub_count(n) as int;
            let t = first_occurrences(rare_draws[k]);
            &&& t.len() <= rare_degree
            &&& t.len() <= h
            &&& rare_degree >= 1 ==> t.len() >= 1
            &&& forall|i: int| 0 <= i < t.len() ==> (#[trigger] t[i] as int) < h
            &&& forall|i: int, j: int| 0 <= i < j < t.len() ==> #[trigger] t[i] != #[trigger] t[j]
            &&& exists|o: int|
                0 <= o && o + t.len() <= edges.len() && #[trigger] edges.subrange(o, o + t.len()) == edges_from(
                    (h + k) as u32,
                    t,
                ) && forall|i: int|
                    0 <= i < edges.len() && !(o <= i < o + t.len()) ==> (#[trigger] edges[i]).0 as int != h + k
                        && edges[i].1 as int != h + k
            &&& forall|i: int| 0 <= i < edges.len() ==> (#[trigger] edges[i]).1 as int != h + k
        }),
{
    let h = hub_count(n) as int;
    let r = rare_count(n) as int;
    let d = rare_draws[k];
    let t = first_occurrences(d);
    assert(h + r <= n || h + r <= 3);
    lemma_first_occurrences(d);
    assert forall|i: int| 0 <= i < t.len() implies (#[trigger] t[i] as int) < h by {
        assert(d.contains(t[i]));
        let x = choose|x: int| 0 <= x < d.len() && #[trigger] d[x] == t[i];
    }
    let tu = t.map_values(|x: u32| x as usize);
    lemma_distinct_below_len(tu, h as nat);
    let c = clique_rows(h, h);
    let a = hub_rows_for(h, rare_draws, true);
    let b = hub_rows_for(h + r, tail_draws, false);
    assert forall|j: int, x: int| 0 <= j < rare_draws.len() && 0 <= x < rare_draws[j].len() implies (
    #[trigger] rare_draws[j][x] as int) < h by {
        assert(rare_draws[j].len() == rare_degree);
    }
    let o1 = lemma_hub_rows_block(h, rare_draws, true, k, h);
    lemma_clique_sources(h, h);
    lemma_clique_targets(h, h);
    let tc = tail_count(n) as int;
    if tc > 0 {
        assert forall|j: int, x: int| 0 <= j < tail_draws.len() && 0 <= x < tail_draws[j].len() implies (
        #[trigger] tail_draws[j][x] as int) < h by {
            assert(tail_draws[j].len() == 3);
        }
        lemma_hub_rows_block(h + r, tail_draws, false, 0, h);
    }
    let o = c.len() + o1;
    assert(edges == c + a + b);
    assert(edges.subrange(o, o + t.len()) =~= a.subrange(o1, o1 + t.len()));
    assert forall|i: int| 0 <= i < edges.len() implies (#[trigger] edges[i]).1 as int != h + k && (!(o <= i < o
        + t.len()) ==> edges[i].0 as int != h + k) by {
        if i < c.len() {
            assert(edges[i] == c[i]);
        } else if i < c.len() + a.len() {
            assert(edges[i] == a[i - c.len()]);
        } else {
            assert(edges[i] == b[i - c.len() - a.len()]);
        }
    }
}

proof fn lemma_clusters_edges_frame(start: int, a: Seq<Seq<u32>>, b: Seq<Seq<u32>>, c: int)
    requires
        0 <= c <= a.len(),
        c <= b.len(),
        forall|x: int| 0 <= x < c ==> #[trigger] a[x] == b[x],
    ensures
        clusters_edges(start, a, c) == clusters_edges(start, b, c),
    decreases c,
{
    if c > 0 {
        lemma_clusters_edges_frame(start, a, b, c - 1);
    }
}

proof fn lemma_clique_targets(rows: int, h: int)
    requires
        0 <= rows <= h <= 0xffff_ffff,
    ensures
        forall|i: int|
            0 <= i < clique_rows(rows, h).len() ==> (#[trigger] clique_rows(rows, h)[i]).1 < h,
    decreases rows,
{
    if rows > 0 {
        lemma_clique_targets(rows - 1, h);
        let prev = clique_rows(rows - 1, h);
        let row = clique_row(rows - 1, h);
        assert forall|i: int| 0 <= i < clique_rows(rows, h).len() implies (#[trigger] clique_rows(
            rows,
            h,
        )[i]).1 < h by {
            if i >= prev.len() {
                assert(clique_rows(rows, h)[i] == row[i - prev.len()]);
            } else {
                assert(clique_rows(rows, h)[i] == prev[i]);
            }
        }
    }
}

proof fn lemma_clique_sources(rows: int, h: int)
    requires
        0 <= rows <= h <= 0xffff_ffff,
    ensures
        forall|i: int|
            0 <= i < clique_rows(rows, h).len() ==> (#[trigger] clique_rows(rows, h)[i]).0 < h
                && (clique_rows(rows, h)[i].0 as int) < rows,
    decreases rows,
{
    if rows > 0 {
        lemma_clique_sources(rows - 1, h);
        let prev = clique_rows(rows - 1, h);
        let row = clique_row(rows - 1, h);
        assert forall|i: int| 0 <= i < clique_rows(rows, h).len() implies (#[trigger] clique_rows(
            rows,
            h,
        )[i]).0 < h && (clique_rows(rows, h)[i].0 as int) < rows by {
            if i >= prev.len() {
                assert(clique_rows(rows, h)[i] == row[i - prev.len()]);
            } else {
                assert(clique_rows(rows, h)[i] == prev[i]);
            }
        }
    }
}

proof fn lemma_take_prefix(after: Seq<(u32, u32)>, before: Seq<(u32, u32)>)
    requires
        before.len() <= after.len(),
        after.take(before.len() as int) == before,
    ensures
        forall|x: int| 0 <= x < before.len() ==> #[trigger] after[x] == before[x],
{
    assert forall|x: int| 0 <= x < before.len() implies #[trigger] after[x] == before[x] by {
        assert(after.take(before.len() as int)[x] == after[x]);
    }
}

/// Appending edges from other sources leaves the out-count of `d` unchanged.
proof fn lemma_out_count_prefix(before: Seq<(u32, u32)>, after: Seq<(u32, u32)>, d: int)
    requires
        before.len() <= after.len(),
        after.take(before.len() as int) == before,
        forall|i: int| before.len() <= i < after.len() ==> #[trigger] after[i].0 as int != d,
    ensures
        out_count(after, d) == out_count(before, d),
    decreases after.len(),
{
    if after.len() > before.len() {
        let shorter = after.drop_last();
        assert(shorter.take(before.len() as int) =~= after.take(before.len() as int));
        lemma_out_count_prefix(before, shorter, d);
    } else {
        assert(after =~= before);
    }
}

/// The decimal digit for `d < 10`.
pub open spec fn digit_char(d: nat) -> char {
    if d == 0 {
        '0'
    } else if d == 1 {
        '1'
    } else if d == 2 {
        '2'
    } else if d == 3 {
        '3'
    } else if d == 4 {
        '4'
    } else if d == 5 {
        '5'
    } else if d == 6 {
        '6'
    } else if d == 7 {
        '7'
    } else if d == 8 {
        '8'
    } else {
        '9'
    }
}

/// The decimal digits of `x`, most significant first, without leading
/// zeros (`0` for zero).
pub open spec fn decimal_digits(x: nat) -> Seq<char>
    decreases x,
{
    if x < 10 {
        seq![digit_char(x)]
    } else {
        decimal_digits(x / 10).push(digit_char(x % 10))
    }
}

fn push_decimal(out: &mut Vec<char>, x: usize)
    ensures
        final(out)@ == old(out)@ + decimal_digits(x as nat),
    decreases x,
{
    if x >= 10 {
        push_decimal(out, x / 10);
    }
    let d = x % 10;
    let c = if d == 0 {
        '0'
    } else if d == 1 {
        '1'
    } else if d == 2 {
        '2'
    } else if d == 3 {
        '3'
    } else if d == 4 {
        '4'
    } else if d == 5 {
        '5'
    } else if d == 6 {
        '6'
    } else if d == 7 {
        '7'
    } else if d == 8 {
        '8'
    } else {
        '9'
    };
    out.push(c);
    assert(out@ =~= old(out)@ + decimal_digits(x as nat));
}

fn prefixed_decimal(prefix: &str, x: usize) -> (r: String)
    ensures
        r@ == prefix@ + decimal_digits(x as nat),
{
    let mut digits: Vec<char> = Vec::new();
    push_decimal(&mut digits, x);
    assert(digits@ =~= decimal_digits(x as nat));
    let tail = string_of(&digits, 0, digits.len());
    assert(digits@.subrange(0, digits.len() as int) =~= digits@);
    let mut r = String::from_str(prefix);
    r.append(tail.as_str());
    r
}

/// The dataset name of graph (A): `Adv_A_HighDegRare_deg` and the rare
/// degree in decimal.
pub fn high_degree_rare_name(rare_degree: usize) -> (r: String)
    ensures
        r@ == "Adv_A_HighDegRare_deg"@ + decimal_digits(rare_degree as nat),
{
    prefixed_decimal("Adv_A_HighDegRare_deg", rare_degree)
}

/// The dataset name of graph (B): `Adv_B_Isolated_deg` and the rare degree
/// in decimal.
pub fn structurally_isolated_name(rare_degree: usize) -> (r: String)
    ensures
        r@ == "Adv_B_Isolated_deg"@ + decimal_digits(rare_degree as nat),
{
    prefixed_decimal("Adv_B_Isolated_deg", rare_degree)
}

/// The dataset name of snapshot `step` of graph (E): `Adv_E_Temporal_t` and
/// the step in decimal.
pub fn temporal_snapshot_name(step: usize) -> (r: String)
    ensures
        r@ == "Adv_E_Temporal_t"@ + decimal_digits(step as nat),
{
    prefixed_decimal("Adv_E_Temporal_t", step)
}

} // verus!
