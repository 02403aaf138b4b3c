//! Partitions built from causal links: causally connected nodes are grouped
//! into one module, small groups are dropped, large groups are cut into
//! consecutive pieces, and nodes left over may be given modules of their own.
//!
//! Nodes are indices `0..n`. The links that take part are given as index
//! pairs: filtering links by their transfer-entropy value happens before.

use vstd::prelude::*;
use crate::components::{
    connected, connected_components, is_component_partition, lemma_distinct_below_len, sum_lens,
};

verus! {

/// The number of pieces the plain cut makes of a cluster of `len` members
/// with maximum `max` (positive): `len / max + 1`.
pub open spec fn plain_count(len: nat, max: nat) -> nat {
    len / max + 1
}

/// The size of every piece of the plain cut but the last, which takes what
/// remains.
pub open spec fn plain_size(len: nat, max: nat) -> nat {
    len / plain_count(len, max)
}

/// Whether the plain cut keeps within the maximum: its last piece, which
/// takes the remainder, has at most `max` members.
pub open spec fn plain_fits(len: nat, max: nat) -> bool {
    len - (plain_count(len, max) - 1) * plain_size(len, max) <= max
}

/// The number of pieces of the balanced cut: `len / max` rounded up.
pub open spec fn piece_count(len: nat, max: nat) -> nat {
    ((len + max - 1) / max as int) as nat
}

/// Where piece `i` of the balanced cut into `k` pieces starts: the first
/// `len % k` pieces get one member more than the others.
pub open spec fn piece_start(len: nat, k: nat, i: int) -> int {
    let q = (len / k) as int;
    let r = (len % k) as int;
    i * q + if i < r {
        i
    } else {
        r
    }
}

/// How many pieces a cluster of `len` members is cut into: the plain cut's
/// number when that cut keeps within the maximum, the balanced cut's
/// otherwise.
pub open spec fn split_count(len: nat, max: nat) -> nat {
    if plain_fits(len, max) {
        plain_count(len, max)
    } else {
        piece_count(len, max)
    }
}

/// Where piece `i` starts (piece `split_count` "starts" at `len`): for the
/// plain cut at `i` times the plain size, for the balanced cut at
/// `piece_start`.
pub open spec fn cut(len: nat, max: nat, i: int) -> int {
    if plain_fits(len, max) {
        if i < plain_count(len, max) {
            i * plain_size(len, max)
        } else {
            len as int
        }
    } else {
        piece_start(len, piece_count(len, max), i)
    }
}

/// `nodes` cut into consecutive pieces: `len / max + 1` pieces of
/// `len / (len / max + 1)` members, the last taking the rest, unless that
/// last piece would exceed `max`; then the fewest pieces of at most `max`
/// members, their sizes differing by at most one, the larger first.
pub open spec fn split_pieces(nodes: Seq<usize>, max: nat) -> Seq<Seq<usize>> {
    Seq::new(
        split_count(nodes.len(), max),
        |i: int| nodes.subrange(cut(nodes.len(), max, i), cut(nodes.len(), max, i + 1)),
    )
}

/// What becomes of one component: dropped when smaller than `min`, cut
/// when larger than `max`, kept whole otherwise.
pub open spec fn kept_pieces(comp: Seq<usize>, min: nat, max: nat) -> Seq<Seq<usize>> {
    if comp.len() < min {
        Seq::empty()
    } else if comp.len() > max {
        split_pieces(comp, max)
    } else {
        seq![comp]
    }
}

/// The pieces of all components, in component order.
pub open spec fn all_pieces(comps: Seq<Seq<usize>>, min: nat, max: nat) -> Seq<Seq<usize>>
    decreases comps.len(),
{
    if comps.len() == 0 {
        Seq::empty()
    } else {
        all_pieces(comps.drop_last(), min, max) + kept_pieces(comps.last(), min, max)
    }
}

proof fn lemma_piece_count_positive(len: nat, max: nat)
    requires
        max > 0,
        len > 0,
    ensures
        piece_count(len, max) >= 1,
{
    let l = len as int;
    let m = max as int;
    assert((l + m - 1) / m >= 1) by (nonlinear_arith)
        requires
            m > 0,
            l > 0,
    ;
}

proof fn lemma_piece_bounds(len: nat, max: nat, i: int)
    requires
        max > 0,
        len > 0,
        0 <= i < piece_count(len, max),
    ensures
        piece_count(len, max) >= 1,
        0 <= piece_start(len, piece_count(len, max), i),
        piece_start(len, piece_count(len, max), i) < piece_start(len, piece_count(len, max), i + 1),
        piece_start(len, piece_count(len, max), i + 1) - piece_start(len, piece_count(len, max), i) <= max,
        piece_start(len, piece_count(len, max), i + 1) <= len,
        piece_start(len, piece_count(len, max), 0) == 0,
        piece_start(len, piece_count(len, max), piece_count(len, max) as int) == len,
{
    let k = piece_count(len, max) as int;
    let q = (len / (k as nat)) as int;
    let r = (len % (k as nat)) as int;
    let l = len as int;
    let m = max as int;
    assert(k >= 1 && k * m >= l && (k - 1) * m < l) by (nonlinear_arith)
        requires
            k == (l + m - 1) / m,
            m > 0,
            l > 0,
    ;
    assert(l == k * q + r && 0 <= r < k && q >= 0) by (nonlinear_arith)
        requires
            k >= 1,
            q == l / k,
            r == l % k,
            l > 0,
    ;
    // every piece has at most ceil(l / k) <= m members
    assert(q + 1 <= m || r == 0) by (nonlinear_arith)
        requires
            l == k * q + r,
            0 <= r < k,
            k * m >= l,
            m > 0,
    ;
    assert(q <= m) by (nonlinear_arith)
        requires
            l == k * q + r,
            0 <= r,
            k * m >= l,
            k >= 1,
    ;
    assert(q >= 1 || r > 0) by (nonlinear_arith)
        requires
            l == k * q + r,
            l > 0,
            q >= 0,
    ;
    assert(q >= 1 || i < r) by (nonlinear_arith)
        requires
            l == k * q + r,
            (k - 1) * m < l,
            0 <= r < k,
            0 <= i < k,
            q >= 0,
            m >= 1,
    ;
    let s0 = piece_start(len, k as nat, i);
    let s1 = piece_start(len, k as nat, i + 1);
    assert(0 <= i * q) by (nonlinear_arith)
        requires
            0 <= i,
            0 <= q,
    ;
    assert((i + 1) * q == i * q + q) by (nonlinear_arith);
    assert(s1 <= l) by (nonlinear_arith)
        requires
            s1 == (i + 1) * q + (if i + 1 < r { i + 1 } else { r }),
            i + 1 <= k,
            l == k * q + r,
            0 <= r,
            q >= 0,
    ;
    assert(k * q + r == l);
}

proof fn lemma_plain_facts(len: nat, max: nat)
    requires
        max > 0,
    ensures
        plain_count(len, max) >= 1,
        plain_count(len, max) * plain_size(len, max) <= len,
        plain_size(len, max) < max || len == 0 || plain_count(len, max) == 1,
        plain_count(len, max) * max > len,
        len > max && plain_fits(len, max) ==> plain_size(len, max) >= 1,
{
    let l = len as int;
    let m = max as int;
    let k = plain_count(len, max) as int;
    let sz = plain_size(len, max) as int;
    assert(k >= 1 && k * m > l) by (nonlinear_arith)
        requires
            k == l / m + 1,
            m > 0,
            l >= 0,
    ;
    assert(k * sz <= l && sz >= 0) by (nonlinear_arith)
        requires
            k >= 1,
            sz == l / k,
            l >= 0,
    ;
    assert(sz < m || l == 0 || k == 1) by (nonlinear_arith)
        requires
            k >= 1,
            sz == l / k,
            k * m > l,
            l >= 0,
            m > 0,
    ;
    if len > max && plain_fits(len, max) && sz == 0 {
        assert((k - 1) * sz == 0) by (nonlinear_arith)
            requires
                sz == 0,
        ;
    }
}

/// The facts about piece `i` of a cut cluster.
proof fn lemma_cut_bounds(len: nat, max: nat, i: int)
    requires
        max > 0,
        len > 0,
        0 <= i < split_count(len, max),
    ensures
        split_count(len, max) >= 1,
        cut(len, max, 0) == 0,
        cut(len, max, split_count(len, max) as int) == len,
        0 <= cut(len, max, i) <= cut(len, max, i + 1) <= len,
        cut(len, max, i + 1) - cut(len, max, i) <= max,
        len > max ==> cut(len, max, i) < cut(len, max, i + 1),
{
    lemma_plain_facts(len, max);
    if plain_fits(len, max) {
        let k = plain_count(len, max) as int;
        let sz = plain_size(len, max) as int;
        let l = len as int;
        assert(0 <= i * sz && i * sz + sz <= k * sz && (k - 1) * sz <= k * sz) by (nonlinear_arith)
            requires
                0 <= i < k,
                sz >= 0,
        ;
        assert((i + 1) * sz == i * sz + sz) by (nonlinear_arith);
        assert(0 * sz == 0) by (nonlinear_arith);
        if i + 1 == k {
            assert(i * sz == (k - 1) * sz);
        }
    } else {
        lemma_piece_bounds(len, max, i);
        lemma_piece_count_positive(len, max);
    }
}

/// Piece starts never decrease.
proof fn lemma_cut_mono(len: nat, max: nat, i: int, j: int)
    requires
        max > 0,
        len > 0,
        0 <= i <= j <= split_count(len, max),
    ensures
        cut(len, max, i) <= cut(len, max, j),
{
    lemma_plain_facts(len, max);
    if plain_fits(len, max) {
        let k = plain_count(len, max) as int;
        let sz = plain_size(len, max) as int;
        assert(i * sz <= j * sz && j * sz <= k * sz) by (nonlinear_arith)
            requires
                0 <= i <= j <= k,
                sz >= 0,
        ;
    } else {
        lemma_piece_start_mono(len, max, i, j);
    }
}

/// Copies `nodes[start..end]`.
fn copy_range(nodes: &Vec<usize>, start: usize, end: usize) -> (piece: Vec<usize>)
    requires
        start <= end <= nodes.len(),
    ensures
        piece@ == nodes@.subrange(start as int, end as int),
{
    let mut piece: Vec<usize> = Vec::new();
    let mut t = start;
    while t < end
        invariant
            start <= t <= end <= nodes.len(),
            piece@ == nodes@.subrange(start as int, t as int),
        decreases end - t,
    {
        piece.push(nodes[t]);
        t = t + 1;
    }
    piece
}

/// Cut a cluster into consecutive pieces: `len / max + 1` pieces of
/// `len / (len / max + 1)` members with the last taking the rest, or, where
/// that last piece would exceed `max_cluster_size`, the fewest pieces of at
/// most `max_cluster_size` members, their sizes differing by at most one.
pub fn split_cluster(nodes: &Vec<usize>, max_cluster_size: usize) -> (pieces: Vec<Vec<usize>>)
    requires
        max_cluster_size > 0,
        nodes.len() < usize::MAX,
    ensures
        pieces@.map_values(|p: Vec<usize>| p@) == split_pieces(nodes@, max_cluster_size as nat),
{
    let len = nodes.len();
    let max = max_cluster_size;
    let ghost target = split_pieces(nodes@, max as nat);
    let mut pieces: Vec<Vec<usize>> = Vec::new();
    proof {
        lemma_plain_facts(len as nat, max as nat);
    }
    let pk = len / max + 1;
    let psz = len / pk;
    assert((pk - 1) * psz <= pk * psz) by (nonlinear_arith)
        requires
            pk >= 1,
            psz >= 0,
    ;
    let last = len - (pk - 1) * psz;
    if len == 0 {
        assert(plain_count(0, max as nat) == 1);
        assert(plain_size(0, max as nat) == 0);
        assert(plain_fits(0, max as nat));
        assert(cut(0, max as nat, 0) == 0);
        assert(cut(0, max as nat, 1) == 0);
        assert(split_count(0, max as nat) == 1);
        assert(target.len() == 1);
        assert(target[0] =~= Seq::<usize>::empty());
        pieces.push(Vec::new());
        assert(pieces[0]@ =~= Seq::<usize>::empty());
        assert(pieces@.map_values(|p: Vec<usize>| p@) =~= target);
        return pieces;
    }
    let fits = last <= max;
    assert(fits == plain_fits(len as nat, max as nat));
    let k = if fits {
        pk
    } else {
        len / max + if len % max == 0 {
            0
        } else {
            1
        }
    };
    assert(!fits ==> k == piece_count(len as nat, max as nat)) by (nonlinear_arith)
        requires
            max > 0,
            !fits ==> k == len / max + if len % max == 0 { 0int } else { 1int },
    ;
    assert(k == split_count(len as nat, max as nat));
    proof {
        lemma_piece_count_positive(len as nat, max as nat);
        lemma_cut_bounds(len as nat, max as nat, 0);
    }
    let q = len / k;
    let r = len % k;
    let mut start: usize = 0;
    let mut i: usize = 0;
    while i < k
        invariant
            len == nodes.len(),
            len > 0,
            max > 0,
            max == max_cluster_size,
            k == split_count(len as nat, max as nat),
            k >= 1,
            fits == plain_fits(len as nat, max as nat),
            fits ==> pk == plain_count(len as nat, max as nat) && psz == plain_size(len as nat, max as nat)
                && k == pk,
            !fits ==> k == piece_count(len as nat, max as nat),
            q == len / k,
            r == len % k,
            target == split_pieces(nodes@, max as nat),
            i <= k,
            start == cut(len as nat, max as nat, i as int),
            start <= len,
            pieces.len() == i,
            forall|j: int| 0 <= j < i ==> (#[trigger] pieces[j])@ == target[j],
        decreases k - i,
    {
        proof {
            lemma_cut_bounds(len as nat, max as nat, i as int);
        }
        let end = if fits {
            if i + 1 < k {
                assert(start == i * psz);
                assert(cut(len as nat, max as nat, i + 1) == (i + 1) * psz);
                assert((i + 1) * psz == i * psz + psz) by (nonlinear_arith);
                start + psz
            } else {
                len
            }
        } else {
            assert(start + q + (if i < r { 1int } else { 0int }) == cut(len as nat, max as nat, i + 1))
                by (nonlinear_arith)
                requires
                    start == piece_start(len as nat, k as nat, i as int),
                    cut(len as nat, max as nat, i + 1) == piece_start(len as nat, k as nat, i + 1),
                    q == len / k,
                    r == len % k,
            ;
            start + q + if i < r {
                1
            } else {
                0
            }
        };
        let piece = copy_range(nodes, start, end);
        pieces.push(piece);
        start = end;
        i = i + 1;
    }
    assert(pieces@.map_values(|p: Vec<usize>| p@) =~= target);
    pieces
}

/// Every piece of a cluster that exceeds `max` is non-empty and has at
/// most `max` members.
pub proof fn lemma_pieces_bounded(nodes: Seq<usize>, max: nat)
    requires
        max > 0,
        nodes.len() > max,
    ensures
        forall|i: int|
            0 <= i < split_pieces(nodes, max).len() ==> 0 < (#[trigger] split_pieces(nodes, max)[i]).len() <= max,
        split_pieces(nodes, max).len() >= 1,
{
    assert forall|i: int| 0 <= i < split_pieces(nodes, max).len() implies 0 < (#[trigger] split_pieces(
        nodes,
        max,
    )[i]).len() <= max by {
        lemma_cut_bounds(nodes.len(), max, i);
    }
    lemma_plain_facts(nodes.len(), max);
    lemma_piece_count_positive(nodes.len(), max);
}

proof fn lemma_sum_lens_take(cs: Seq<Seq<usize>>, k: int)
    requires
        0 <= k <= cs.len(),
    ensures
        sum_lens(cs.take(k)) <= sum_lens(cs),
    decreases cs.len() - k,
{
    if k < cs.len() {
        lemma_sum_lens_take(cs, k + 1);
        assert(cs.take(k + 1).drop_last() =~= cs.take(k));
    } else {
        assert(cs.take(k) =~= cs);
    }
}

/// Some set of at least `min` nodes is connected to one active node: some
/// component has at least `min` members.
pub open spec fn has_component_of_size(
    active: Seq<bool>,
    edges: Seq<(usize, usize)>,
    min: nat,
) -> bool {
    exists|u: int, s: Set<usize>|
        0 <= u < active.len() && active[u] && s.finite() && s.len() >= min && forall|v: usize|
            #[trigger] s.contains(v) ==> connected(active, edges, u, v as int)
}

/// The modules of a causal partition: the connected components of the
/// linked nodes, each dropped, kept or cut as `kept_pieces` says.
pub fn causal_clusters(
    active: &Vec<bool>,
    links: &Vec<(usize, usize)>,
    min_cluster_size: usize,
    max_cluster_size: usize,
) -> (clusters: Vec<Vec<usize>>)
    requires
        active.len() < usize::MAX,
        max_cluster_size > 0 || !has_component_of_size(active@, links@, min_cluster_size as nat),
    ensures
        exists|comps: Seq<Seq<usize>>|
            is_component_partition(active@, links@, comps) && clusters@.map_values(
                |p: Vec<usize>| p@,
            ) == all_pieces(comps, min_cluster_size as nat, max_cluster_size as nat),
        clusters.len() <= 2 * active.len(),
{
    let comps = connected_components(active, links);
    let ghost cs = comps@.map_values(|c: Vec<usize>| c@);
    let mut clusters: Vec<Vec<usize>> = Vec::new();
    let mut c: usize = 0;
    while c < comps.len()
        invariant
            cs == comps@.map_values(|c: Vec<usize>| c@),
            active.len() < usize::MAX,
            is_component_partition(active@, links@, cs),
            max_cluster_size > 0 || !has_component_of_size(active@, links@, min_cluster_size as nat),
            c <= comps.len(),
            sum_lens(cs) <= active.len(),
            clusters.len() <= 2 * sum_lens(cs.take(c as int)),
            clusters@.map_values(|p: Vec<usize>| p@) == all_pieces(
                cs.take(c as int),
                min_cluster_size as nat,
                max_cluster_size as nat,
            ),
        decreases comps.len() - c,
    {
        let ghost before = clusters@.map_values(|p: Vec<usize>| p@);
        let len = comps[c].len();
        proof {
            let comp = cs[c as int];
            assert forall|i: int, j: int| 0 <= i < j < comp.len() implies comp[i] != comp[j] by {
                assert(cs[c as int][i] != cs[c as int][j] || i == j);
            }
            assert forall|i: int| 0 <= i < comp.len() implies comp[i] < active.len() by {
                assert(cs[c as int][i] < active.len());
            }
            lemma_distinct_below_len(comp, active.len() as nat);
        }
        assert(cs.take(c + 1).drop_last() =~= cs.take(c as int));
        assert(cs.take(c + 1).last() == comps[c as int]@);
        assert(sum_lens(cs.take(c + 1)) == sum_lens(cs.take(c as int)) + len);
        assert(len >= 1);
        if len >= min_cluster_size {
            if len > max_cluster_size {
                if max_cluster_size == 0 {
                    proof {
                        let comp = cs[c as int];
                        assert(comp.no_duplicates()) by {
                            assert forall|i: int, j: int|
                                0 <= i < comp.len() && 0 <= j < comp.len() && i != j implies comp[i]
                                != comp[j] by {
                                assert(comps[c as int]@[i] == cs[c as int][i]);
                            }
                        }
                        comp.unique_seq_to_set();
                        let u = comp[0] as int;
                        assert(active@[u]);
                        assert forall|v: usize| #[trigger] comp.to_set().contains(v) implies connected(
                            active@,
                            links@,
                            u,
                            v as int,
                        ) by {
                            let j = choose|j: int| 0 <= j < comp.len() && comp[j] == v;
                            assert(connected(active@, links@, cs[c as int][0] as int, cs[c as int][j] as int));
                        }
                        vstd::seq_lib::seq_to_set_is_finite(comp);
                        assert(0 <= u < active.len() && active@[u] && comp.to_set().finite()
                            && comp.to_set().len() >= min_cluster_size as nat);
                        assert(has_component_of_size(active@, links@, min_cluster_size as nat));
                    }
                }
                let mut pieces = split_cluster(&comps[c], max_cluster_size);
                assert(len / max_cluster_size <= len) by (nonlinear_arith)
                    requires
                        max_cluster_size >= 1,
                ;
                assert(pieces@.map_values(|p: Vec<usize>| p@).len() == pieces.len());
                let ghost added = pieces@;
                clusters.append(&mut pieces);
                assert(clusters@.map_values(|p: Vec<usize>| p@) =~= before + added.map_values(
                    |p: Vec<usize>| p@,
                ));
            } else {
                let whole = comps[c].clone();
                assert(whole@ =~= comps[c as int]@);
                clusters.push(whole);
                assert(clusters@.map_values(|p: Vec<usize>| p@) =~= before + seq![comps[c as int]@]);
            }
        } else {
            assert(clusters@.map_values(|p: Vec<usize>| p@) =~= before + Seq::<Seq<usize>>::empty());
        }
        c = c + 1;
    }
    assert(cs.take(comps.len() as int) =~= cs);
    proof {
        lemma_sum_lens_take(cs, comps.len() as int);
    }
    clusters
}

/// Give module `id` to every node listed in `members`.
pub open spec fn mark_members(a: Seq<Option<u32>>, members: Seq<usize>, id: u32) -> Seq<Option<u32>>
    decreases members.len(),
{
    if members.len() == 0 {
        a
    } else {
        let b = mark_members(a, members.drop_last(), id);
        let u = members.last() as int;
        if 0 <= u < b.len() {
            b.update(u, Some(id))
        } else {
            b
        }
    }
}

/// Module `c` for the members of cluster `c`, clusters taken in order.
pub open spec fn assign_clusters(n: nat, clusters: Seq<Seq<usize>>) -> Seq<Option<u32>>
    decreases clusters.len(),
{
    if clusters.len() == 0 {
        Seq::new(n, |u: int| None)
    } else {
        mark_members(
            assign_clusters(n, clusters.drop_last()),
            clusters.last(),
            (clusters.len() - 1) as u32,
        )
    }
}

/// The largest module id given so far.
pub open spec fn max_id(a: Seq<Option<u32>>) -> Option<u32>
    decreases a.len(),
{
    if a.len() == 0 {
        None
    } else {
        let m = max_id(a.drop_last());
        match a.last() {
            None => m,
            Some(x) => match m {
                None => Some(x),
                Some(y) => if x > y {
                    Some(x)
                } else {
                    Some(y)
                },
            },
        }
    }
}

/// The first id for the nodes left over: one past the largest id, or 1
/// when no node has a module yet.
pub open spec fn first_fresh_id(a: Seq<Option<u32>>) -> nat {
    match max_id(a) {
        None => 1,
        Some(m) => m as nat + 1,
    }
}

/// Nodes of `rest` that have no module yet get fresh ids in the order in
/// which they are listed, starting at `next`; returns the assignment and
/// the next unused id.
pub open spec fn fill_rest(a: Seq<Option<u32>>, rest: Seq<usize>, next: nat) -> (Seq<Option<u32>>, nat)
    decreases rest.len(),
{
    if rest.len() == 0 {
        (a, next)
    } else {
        let (b, m) = fill_rest(a, rest.drop_last(), next);
        let u = rest.last() as int;
        if 0 <= u < b.len() && b[u] is None {
            (b.update(u, Some(m as u32)), m + 1)
        } else {
            (b, m)
        }
    }
}

/// The partition of `n` nodes: the clusters' modules, then, when
/// `rest` is given, fresh modules for its unassigned nodes.
pub open spec fn partition_of(n: nat, clusters: Seq<Seq<usize>>, rest: Option<Seq<usize>>) -> Seq<Option<u32>> {
    let a = assign_clusters(n, clusters);
    match rest {
        None => a,
        Some(r) => fill_rest(a, r, first_fresh_id(a)).0,
    }
}

proof fn lemma_mark_len(a: Seq<Option<u32>>, members: Seq<usize>, id: u32)
    ensures
        mark_members(a, members, id).len() == a.len(),
        forall|u: int| 0 <= u < a.len() && #[trigger] mark_members(a, members, id)[u] is Some
            ==> (a[u] is Some && mark_members(a, members, id)[u] == a[u]) || mark_members(a, members, id)[u] == Some(id),
    decreases members.len(),
{
    if members.len() > 0 {
        lemma_mark_len(a, members.drop_last(), id);
    }
}

proof fn lemma_assign_bound(n: nat, clusters: Seq<Seq<usize>>)
    ensures
        assign_clusters(n, clusters).len() == n,
        forall|u: int| 0 <= u < n && #[trigger] assign_clusters(n, clusters)[u] is Some
            ==> assign_clusters(n, clusters)[u]->0 < clusters.len(),
    decreases clusters.len(),
{
    if clusters.len() > 0 {
        lemma_assign_bound(n, clusters.drop_last());
        lemma_mark_len(assign_clusters(n, clusters.drop_last()), clusters.last(), (clusters.len() - 1) as u32);
    }
}

proof fn lemma_max_id_bound(a: Seq<Option<u32>>, bound: nat)
    requires
        forall|u: int| 0 <= u < a.len() && #[trigger] a[u] is Some ==> a[u]->0 < bound,
    ensures
        first_fresh_id(a) <= bound + 1,
    decreases a.len(),
{
    if a.len() > 0 {
        lemma_max_id_bound(a.drop_last(), bound);
    }
}

proof fn lemma_fill_rest_bound(a: Seq<Option<u32>>, rest: Seq<usize>, next: nat)
    ensures
        fill_rest(a, rest, next).0.len() == a.len(),
        next <= fill_rest(a, rest, next).1 <= next + rest.len(),
    decreases rest.len(),
{
    if rest.len() > 0 {
        lemma_fill_rest_bound(a, rest.drop_last(), next);
    }
}

/// Module ids for all nodes: the clusters' own, then fresh ones for the
/// nodes of `rest` that have none.
pub fn assign_partition(n: usize, clusters: &Vec<Vec<usize>>, rest: Option<&Vec<usize>>) -> (partition: Vec<Option<u32>>)
    requires
        clusters.len() + match rest {
            Some(r) => r.len(),
            None => 0,
        } < u32::MAX,
    ensures
        partition@ == partition_of(
            n as nat,
            clusters@.map_values(|c: Vec<usize>| c@),
            match rest {
                Some(r) => Some(r@),
                None => None,
            },
        ),
{
    let ghost cs = clusters@.map_values(|c: Vec<usize>| c@);
    let mut a: Vec<Option<u32>> = Vec::new();
    let mut i: usize = 0;
    while i < n
        invariant
            i <= n,
            a@ =~= Seq::new(i as nat, |u: int| None::<u32>),
        decreases n - i,
    {
        a.push(None);
        i = i + 1;
    }
    let mut c: usize = 0;
    while c < clusters.len()
        invariant
            cs == clusters@.map_values(|c: Vec<usize>| c@),
            c <= clusters.len(),
            clusters.len() < u32::MAX,
            a@ == assign_clusters(n as nat, cs.take(c as int)),
        decreases clusters.len() - c,
    {
        let ghost base = a@;
        let id = c as u32;
        let mut j: usize = 0;
        while j < clusters[c].len()
            invariant
                c < clusters.len(),
                cs == clusters@.map_values(|c: Vec<usize>| c@),
                id == c as u32,
                base == assign_clusters(n as nat, cs.take(c as int)),
                j <= clusters[c as int].len(),
                a@ == mark_members(base, clusters[c as int]@.take(j as int), id),
            decreases clusters[c as int].len() - j,
        {
            let u = clusters[c][j];
            assert(clusters[c as int]@.take(j + 1).drop_last() =~= clusters[c as int]@.take(j as int));
            proof {
                lemma_mark_len(base, clusters[c as int]@.take(j as int), id);
                assert(base.len() == n) by {
                    lemma_assign_bound(n as nat, cs.take(c as int));
                }
            }
            if u < n {
                a.set(u, Some(id));
            }
            j = j + 1;
        }
        assert(clusters[c as int]@.take(clusters[c as int].len() as int) =~= clusters[c as int]@);
        assert(cs.take(c + 1).drop_last() =~= cs.take(c as int));
        assert(cs.take(c + 1).last() == clusters[c as int]@);
        c = c + 1;
    }
    assert(cs.take(clusters.len() as int) =~= cs);
    proof {
        lemma_assign_bound(n as nat, cs);
    }
    match rest {
        None => a,
        Some(r) => {
            let ghost base = a@;
            let mut best: Option<u32> = None;
            let mut k: usize = 0;
            while k < a.len()
                invariant
                    k <= a.len(),
                    best == max_id(a@.take(k as int)),
                decreases a.len() - k,
            {
                assert(a@.take(k + 1).drop_last() =~= a@.take(k as int));
                match a[k] {
                    None => {},
                    Some(x) => {
                        match best {
                            None => { best = Some(x); },
                            Some(y) => {
                                if x > y {
                                    best = Some(x);
                                }
                            },
                        }
                    },
                }
                k = k + 1;
            }
            assert(a@.take(a.len() as int) =~= a@);
            proof {
                lemma_max_id_bound(a@, clusters.len() as nat);
            }
            let mut next: u32 = match best {
                None => 1,
                Some(m) => m + 1,
            };
            let mut t: usize = 0;
            while t < r.len()
                invariant
                    t <= r.len(),
                    base.len() == n,
                    clusters.len() + r.len() < u32::MAX,
                    first_fresh_id(base) <= clusters.len() + 1,
                    (a@, next as nat) == fill_rest(base, r@.take(t as int), first_fresh_id(base)),
                decreases r.len() - t,
            {
                proof {
                    lemma_fill_rest_bound(base, r@.take(t as int), first_fresh_id(base));
                }
                assert(r@.take(t + 1).drop_last() =~= r@.take(t as int));
                let u = r[t];
                if u < a.len() && a[u].is_none() {
                    a.set(u, Some(next));
                    next = next + 1;
                }
                t = t + 1;
            }
            assert(r@.take(r.len() as int) =~= r@);
            a
        },
    }
}

/// The partition built from causal links among `n` nodes: the nodes that
/// some link touches are grouped by `causal_clusters`, their modules
/// numbered in cluster order; the nodes of `rest` without a module then
/// get fresh ones.
pub fn build_partition_from_links(
    n: usize,
    links: &Vec<(usize, usize)>,
    min_cluster_size: usize,
    max_cluster_size: usize,
    rest: Option<&Vec<usize>>,
) -> (partition: Vec<Option<u32>>)
    requires
        n < usize::MAX,
        forall|i: int| 0 <= i < links.len() ==> #[trigger] links[i].0 < n && links[i].1 < n,
        max_cluster_size > 0 || !has_component_of_size(
            endpoints(n as nat, links@),
            links@,
            min_cluster_size as nat,
        ),
        2 * n + match rest {
            Some(r) => r.len(),
            None => 0,
        } < u32::MAX,
    ensures
        exists|comps: Seq<Seq<usize>>|
            is_component_partition(endpoints(n as nat, links@), links@, comps) && partition@
                == partition_of(
                n as nat,
                all_pieces(comps, min_cluster_size as nat, max_cluster_size as nat),
                match rest {
                    Some(r) => Some(r@),
                    None => None,
                },
            ),
{
    let mut active: Vec<bool> = Vec::new();
    let mut i: usize = 0;
    while i < n
        invariant
            i <= n,
            active@ =~= Seq::new(i as nat, |u: int| false),
        decreases n - i,
    {
        active.push(false);
        i = i + 1;
    }
    let mut k: usize = 0;
    while k < links.len()
        invariant
            k <= links.len(),
            active.len() == n,
            forall|i: int| 0 <= i < links.len() ==> #[trigger] links[i].0 < n && links[i].1 < n,
            forall|u: int| 0 <= u < n ==> active@[u] == exists|e: int|
                0 <= e < k && (links@[e].0 == u || links@[e].1 == u),
        decreases links.len() - k,
    {
        let (a, b) = links[k];
        active.set(a, true);
        active.set(b, true);
        k = k + 1;
    }
    assert(active@ =~= endpoints(n as nat, links@));
    let clusters = causal_clusters(&active, links, min_cluster_size, max_cluster_size);
    assign_partition(n, &clusters, rest)
}

/// The nodes that some link touches.
pub open spec fn endpoints(n: nat, links: Seq<(usize, usize)>) -> Seq<bool> {
    Seq::new(n, |u: int| exists|e: int| 0 <= e < links.len() && (links[e].0 == u || links[e].1 == u))
}

/// Whether `u` is a member of some cluster.
pub open spec fn in_cluster(clusters: Seq<Seq<usize>>, u: int) -> bool {
    exists|c: int, i: int| 0 <= c < clusters.len() && 0 <= i < clusters[c].len() && #[trigger] clusters[c][i] as int == u
}

/// Whether the clusters are disjoint lists of distinct nodes below `n`.
pub open spec fn disjoint_clusters(n: nat, clusters: Seq<Seq<usize>>) -> bool {
    &&& forall|c: int, i: int| 0 <= c < clusters.len() && 0 <= i < clusters[c].len() ==> #[trigger] clusters[c][i] < n
    &&& forall|c1: int, i: int, c2: int, j: int|
        0 <= c1 < clusters.len() && 0 <= i < clusters[c1].len() && 0 <= c2 < clusters.len() && 0 <= j
            < clusters[c2].len() && #[trigger] clusters[c1][i] == #[trigger] clusters[c2][j] ==> c1 == c2
}

proof fn lemma_mark_members_at(a: Seq<Option<u32>>, members: Seq<usize>, id: u32, u: usize)
    requires
        (u as int) < a.len(),
    ensures
        mark_members(a, members, id).len() == a.len(),
        mark_members(a, members, id)[u as int] == if members.contains(u) {
            Some(id)
        } else {
            a[u as int]
        },
    decreases members.len(),
{
    if members.len() > 0 {
        let rest = members.drop_last();
        lemma_mark_members_at(a, rest, id, u);
        if rest.contains(u) {
            let i = choose|i: int| 0 <= i < rest.len() && rest[i] == u;
            assert(members[i] == u);
        }
        if members.contains(u) && !rest.contains(u) {
            let i = choose|i: int| 0 <= i < members.len() && members[i] == u;
            if i < rest.len() {
                assert(rest[i] == u);
            }
        }
        lemma_mark_len(a, rest, id);
    }
}

proof fn lemma_assign_at(n: nat, clusters: Seq<Seq<usize>>, u: usize)
    requires
        disjoint_clusters(n, clusters),
        (u as int) < n,
        clusters.len() <= 0xffff_ffff,
    ensures
        assign_clusters(n, clusters).len() == n,
        forall|c: int| 0 <= c < clusters.len() && #[trigger] clusters[c].contains(u) ==> assign_clusters(
            n,
            clusters,
        )[u as int] == Some(c as u32),
        !in_cluster(clusters, u as int) ==> assign_clusters(n, clusters)[u as int] is None,
    decreases clusters.len(),
{
    lemma_assign_bound(n, clusters);
    if clusters.len() > 0 {
        let front = clusters.drop_last();
        assert forall|c: int, i: int| 0 <= c < front.len() && 0 <= i < front[c].len() implies #[trigger] front[c][i] < n by {
            assert(front[c] == clusters[c]);
        }
        assert forall|c1: int, i: int, c2: int, j: int|
            0 <= c1 < front.len() && 0 <= i < front[c1].len() && 0 <= c2 < front.len() && 0 <= j < front[c2].len()
                && #[trigger] front[c1][i] == #[trigger] front[c2][j] implies c1 == c2 by {
            assert(front[c1] == clusters[c1]);
            assert(front[c2] == clusters[c2]);
        }
        lemma_assign_at(n, front, u);
        lemma_assign_bound(n, front);
        let last = clusters.len() - 1;
        lemma_mark_members_at(assign_clusters(n, front), clusters[last], last as u32, u);
        assert forall|c: int| 0 <= c < clusters.len() && #[trigger] clusters[c].contains(u) implies assign_clusters(
            n,
            clusters,
        )[u as int] == Some(c as u32) by {
            if c < last {
                assert(front[c] == clusters[c]);
                if clusters[last].contains(u) {
                    let i = choose|i: int| 0 <= i < clusters[c].len() && clusters[c][i] == u;
                    let j = choose|j: int| 0 <= j < clusters[last].len() && clusters[last][j] == u;
                    assert(clusters[c][i] == clusters[last][j]);
                }
            }
        }
        if !in_cluster(clusters, u as int) {
            if in_cluster(front, u as int) {
                let (c, i) = choose|c: int, i: int|
                    0 <= c < front.len() && 0 <= i < front[c].len() && #[trigger] front[c][i] as int == u as int;
                assert(clusters[c][i] == front[c][i]);
            }
            if clusters[last].contains(u) {
                let j = choose|j: int| 0 <= j < clusters[last].len() && clusters[last][j] == u;
                assert(clusters[last][j] as int == u as int);
            }
        }
    }
}

proof fn lemma_max_id_covers(a: Seq<Option<u32>>, u: int)
    requires
        0 <= u < a.len(),
        a[u] is Some,
    ensures
        max_id(a) is Some,
        a[u]->0 <= max_id(a)->0,
    decreases a.len(),
{
    if u < a.len() - 1 {
        lemma_max_id_covers(a.drop_last(), u);
        assert(a.drop_last()[u] == a[u]);
    } else {
        if a.len() > 1 {
            lemma_max_id_some(a.drop_last());
        }
    }
}

proof fn lemma_max_id_some(a: Seq<Option<u32>>)
    ensures
        max_id(a) is Some ==> exists|u: int| 0 <= u < a.len() && #[trigger] a[u] is Some,
    decreases a.len(),
{
    if a.len() > 0 {
        lemma_max_id_some(a.drop_last());
        if max_id(a.drop_last()) is Some {
            let u = choose|u: int| 0 <= u < a.drop_last().len() && #[trigger] a.drop_last()[u] is Some;
            assert(a[u] == a.drop_last()[u]);
        }
        if a.last() is Some {
            assert(a[a.len() - 1] is Some);
        }
    }
}

proof fn lemma_fill_rest_at(a: Seq<Option<u32>>, rest: Seq<usize>, next: nat)
    requires
        next + rest.len() <= 0xffff_ffff,
    ensures
        ({
            let (b, m) = fill_rest(a, rest, next);
            &&& b.len() == a.len()
            &&& next <= m <= next + rest.len()
            &&& forall|u: int| 0 <= u < a.len() && a[u] is Some ==> #[trigger] b[u] == a[u]
            &&& forall|u: usize|
                (u as int) < a.len() && a[u as int] is None ==> (#[trigger] b[u as int] is Some <==> rest.contains(u))
            &&& forall|u: int| 0 <= u < a.len() && a[u] is None && #[trigger] b[u] is Some ==> next <= b[u]->0 < m
            &&& forall|u: int, v: int|
                0 <= u < a.len() && 0 <= v < a.len() && u != v && a[u] is None && a[v] is None && #[trigger] b[u]
                    is Some && #[trigger] b[v] is Some ==> b[u] != b[v]
        }),
    decreases rest.len(),
{
    if rest.len() > 0 {
        let front = rest.drop_last();
        lemma_fill_rest_at(a, front, next);
        let (b0, m0) = fill_rest(a, front, next);
        let (b, m) = fill_rest(a, rest, next);
        let w = rest.last();
        assert forall|u: usize| (u as int) < a.len() && a[u as int] is None implies (#[trigger] b[u as int] is Some
            <==> rest.contains(u)) by {
            if front.contains(u) {
                let i = choose|i: int| 0 <= i < front.len() && front[i] == u;
                assert(rest[i] == u);
            }
            if rest.contains(u) && !front.contains(u) {
                let i = choose|i: int| 0 <= i < rest.len() && rest[i] == u;
                if i < front.len() {
                    assert(front[i] == u);
                }
                assert(u == w);
            }
            if u == w {
                assert(rest[rest.len() - 1] == u);
            }
        }
    }
}

/// The partition of `n` nodes into causal modules: every member of cluster
/// `c` gets module `c`, so nodes of different clusters never share one; a
/// node gets a module exactly when it is in some cluster or listed in
/// `rest`; and each listed node outside the clusters gets a fresh module of
/// its own, above every cluster's and shared with no other node.
pub proof fn lemma_partition_modules(n: nat, clusters: Seq<Seq<usize>>, rest: Option<Seq<usize>>)
    requires
        disjoint_clusters(n, clusters),
        clusters.len() + match rest {
            Some(r) => r.len(),
            None => 0,
        } < 0xffff_ffff,
    ensures
        partition_of(n, clusters, rest).len() == n,
        forall|c: int, i: int|
            0 <= c < clusters.len() && 0 <= i < clusters[c].len() ==> partition_of(n, clusters, rest)[
                #[trigger] clusters[c][i] as int] == Some(c as u32),
        forall|u: usize|
            (u as int) < n ==> (#[trigger] partition_of(n, clusters, rest)[u as int] is Some <==> (in_cluster(
                clusters,
                u as int,
            ) || (rest matches Some(r) && r.contains(u)))),
        forall|u: usize, v: usize|
            (u as int) < n && (v as int) < n && !in_cluster(clusters, u as int) && #[trigger] partition_of(
                n,
                clusters,
                rest,
            )[u as int] is Some && u != v && #[trigger] partition_of(n, clusters, rest)[v as int] is Some
                ==> partition_of(n, clusters, rest)[u as int] != partition_of(n, clusters, rest)[v as int],
{
    let a = assign_clusters(n, clusters);
    lemma_assign_bound(n, clusters);
    assert forall|u: usize| (u as int) < n implies (#[trigger] a[u as int] is Some <==> in_cluster(clusters, u as int)) by {
        lemma_assign_at(n, clusters, u);
        if in_cluster(clusters, u as int) {
            let (c, i) = choose|c: int, i: int|
                0 <= c < clusters.len() && 0 <= i < clusters[c].len() && #[trigger] clusters[c][i] as int == u as int;
            assert(clusters[c][i] == u);
            assert(clusters[c].contains(u));
        }
    }
    assert forall|u: usize| (u as int) < n && !in_cluster(clusters, u as int) implies #[trigger] a[u as int] is None by {
        lemma_assign_at(n, clusters, u);
    }
    assert forall|c: int, i: int| 0 <= c < clusters.len() && 0 <= i < clusters[c].len() implies a[
        #[trigger] clusters[c][i] as int] == Some(c as u32) by {
        let x = clusters[c][i];
        assert(x < n);
        assert(clusters[c].contains(x));
        lemma_assign_at(n, clusters, x);
    }
    match rest {
        None => {},
        Some(r) => {
            let next = first_fresh_id(a);
            assert(next <= clusters.len() + 1) by {
                lemma_max_id_bound(a, clusters.len());
            }
            lemma_fill_rest_at(a, r, next);
            let b = fill_rest(a, r, next).0;
            assert forall|u: usize, v: usize|
                (u as int) < n && (v as int) < n && !in_cluster(clusters, u as int) && #[trigger] b[u as int] is Some
                    && u != v && #[trigger] b[v as int] is Some implies b[u as int] != b[v as int] by {
                assert(a[u as int] is None);
                if a[v as int] is Some {
                    lemma_max_id_covers(a, v as int);
                }
            }
            assert forall|c: int, i: int| 0 <= c < clusters.len() && 0 <= i < clusters[c].len() implies b[
                #[trigger] clusters[c][i] as int] == Some(c as u32) by {
                assert(a[clusters[c][i] as int] == Some(c as u32));
            }
        },
    }
}

/// Whether the components are lists of nodes below `n` in which no node
/// occurs twice, within one component or across two.
pub open spec fn distinct_members(n: nat, comps: Seq<Seq<usize>>) -> bool {
    &&& forall|c: int, i: int| 0 <= c < comps.len() && 0 <= i < comps[c].len() ==> #[trigger] comps[c][i] < n
    &&& forall|c1: int, i: int, c2: int, j: int|
        0 <= c1 < comps.len() && 0 <= i < comps[c1].len() && 0 <= c2 < comps.len() && 0 <= j < comps[c2].len()
            && #[trigger] comps[c1][i] == #[trigger] comps[c2][j] ==> c1 == c2 && i == j
}

/// Whether `x` is a member of some component.
pub open spec fn from_comps(comps: Seq<Seq<usize>>, x: usize) -> bool {
    exists|c: int, j: int| 0 <= c < comps.len() && 0 <= j < comps[c].len() && #[trigger] comps[c][j] == x
}

proof fn lemma_piece_start_mono(len: nat, max: nat, i: int, j: int)
    requires
        max > 0,
        len > 0,
        0 <= i <= j,
    ensures
        piece_start(len, piece_count(len, max), i) <= piece_start(len, piece_count(len, max), j),
{
    lemma_piece_count_positive(len, max);
    let k = piece_count(len, max);
    let q = (len / k) as int;
    let r = (len % k) as int;
    assert(i * q <= j * q) by (nonlinear_arith)
        requires
            0 <= i <= j,
            q >= 0,
    ;
}

proof fn lemma_kept_pieces(comp: Seq<usize>, min: nat, max: nat)
    requires
        max > 0,
        forall|i: int, j: int| 0 <= i < comp.len() && 0 <= j < comp.len() && i != j ==> comp[i] != comp[j],
    ensures
        forall|p: int, i: int|
            0 <= p < kept_pieces(comp, min, max).len() && 0 <= i < kept_pieces(comp, min, max)[p].len()
                ==> comp.contains(#[trigger] kept_pieces(comp, min, max)[p][i]),
        forall|p1: int, i1: int, p2: int, i2: int|
            0 <= p1 < kept_pieces(comp, min, max).len() && 0 <= i1 < kept_pieces(comp, min, max)[p1].len() && 0
                <= p2 < kept_pieces(comp, min, max).len() && 0 <= i2 < kept_pieces(comp, min, max)[p2].len()
                && p1 != p2 ==> #[trigger] kept_pieces(comp, min, max)[p1][i1] != #[trigger] kept_pieces(
                comp,
                min,
                max,
            )[p2][i2],
{
    let kp = kept_pieces(comp, min, max);
    if comp.len() < min {
    } else if comp.len() > max {
        let len = comp.len();
        assert forall|p: int, i: int| 0 <= p < kp.len() && 0 <= i < kp[p].len() implies comp.contains(
            #[trigger] kp[p][i],
        ) && kp[p][i] == comp[cut(len, max, p) + i] && cut(len, max, p) + i < cut(len, max, p + 1) by {
            lemma_cut_bounds(len, max, p);
            assert(kp[p][i] == comp[cut(len, max, p) + i]);
        }
        assert forall|p1: int, i1: int, p2: int, i2: int|
            0 <= p1 < kp.len() && 0 <= i1 < kp[p1].len() && 0 <= p2 < kp.len() && 0 <= i2 < kp[p2].len() && p1
                != p2 implies #[trigger] kp[p1][i1] != #[trigger] kp[p2][i2] by {
            lemma_cut_bounds(len, max, p1);
            lemma_cut_bounds(len, max, p2);
            let x1 = cut(len, max, p1) + i1;
            let x2 = cut(len, max, p2) + i2;
            if p1 < p2 {
                lemma_cut_mono(len, max, p1 + 1, p2);
            } else {
                lemma_cut_mono(len, max, p2 + 1, p1);
            }
            assert(kp[p1][i1] == comp[x1]);
            assert(kp[p2][i2] == comp[x2]);
        }
    } else {
        assert forall|p: int, i: int| 0 <= p < kp.len() && 0 <= i < kp[p].len() implies comp.contains(
            #[trigger] kp[p][i],
        ) by {
            assert(kp[p] == comp);
            assert(comp[i] == kp[p][i]);
        }
    }
}

/// The pieces kept of components in which no node occurs twice are
/// disjoint clusters: no node lies in two of them.
pub proof fn lemma_pieces_disjoint(n: nat, comps: Seq<Seq<usize>>, min: nat, max: nat)
    requires
        max > 0,
        distinct_members(n, comps),
    ensures
        disjoint_clusters(n, all_pieces(comps, min, max)),
        forall|p: int, i: int|
            0 <= p < all_pieces(comps, min, max).len() && 0 <= i < all_pieces(comps, min, max)[p].len() ==> from_comps(
                comps,
                #[trigger] all_pieces(comps, min, max)[p][i],
            ),
    decreases comps.len(),
{
    let ap = all_pieces(comps, min, max);
    if comps.len() > 0 {
        let front = comps.drop_last();
        let last = comps.len() - 1;
        let comp = comps[last];
        assert forall|c: int, i: int| 0 <= c < front.len() && 0 <= i < front[c].len() implies #[trigger] front[c][i]
            < n by {
            assert(front[c] == comps[c]);
        }
        assert forall|c1: int, i: int, c2: int, j: int|
            0 <= c1 < front.len() && 0 <= i < front[c1].len() && 0 <= c2 < front.len() && 0 <= j < front[c2].len()
                && #[trigger] front[c1][i] == #[trigger] front[c2][j] implies c1 == c2 && i == j by {
            assert(front[c1] == comps[c1]);
            assert(front[c2] == comps[c2]);
        }
        lemma_pieces_disjoint(n, front, min, max);
        assert forall|i: int, j: int| 0 <= i < comp.len() && 0 <= j < comp.len() && i != j implies comp[i]
            != comp[j] by {
            assert(comps[last][i] == comp[i]);
            assert(comps[last][j] == comp[j]);
        }
        lemma_kept_pieces(comp, min, max);
        let a = all_pieces(front, min, max);
        let kp = kept_pieces(comp, min, max);
        assert(ap == a + kp);
        assert forall|p: int, i: int| 0 <= p < ap.len() && 0 <= i < ap[p].len() implies from_comps(
            comps,
            #[trigger] ap[p][i],
        ) && (p >= a.len() ==> comp.contains(ap[p][i])) && (p < a.len() ==> from_comps(front, ap[p][i])) by {
            if p < a.len() {
                assert(ap[p] == a[p]);
                assert(from_comps(front, a[p][i]));
                let (c, j) = choose|c: int, j: int| 0 <= c < front.len() && 0 <= j < front[c].len() && #[trigger] front[c][j] == a[p][i];
                assert(comps[c][j] == front[c][j]);
            } else {
                assert(ap[p] == kp[p - a.len()]);
                assert(comp.contains(kp[p - a.len()][i]));
                let j = choose|j: int| 0 <= j < comp.len() && comp[j] == kp[p - a.len()][i];
                assert(comps[last][j] == comp[j]);
            }
        }
        assert forall|c: int, i: int| 0 <= c < ap.len() && 0 <= i < ap[c].len() implies #[trigger] ap[c][i] < n by {
            assert(from_comps(comps, ap[c][i]));
        }
        assert forall|c1: int, i: int, c2: int, j: int|
            0 <= c1 < ap.len() && 0 <= i < ap[c1].len() && 0 <= c2 < ap.len() && 0 <= j < ap[c2].len()
                && #[trigger] ap[c1][i] == #[trigger] ap[c2][j] implies c1 == c2 by {
            if c1 < a.len() && c2 < a.len() {
                assert(ap[c1] == a[c1]);
                assert(ap[c2] == a[c2]);
            } else if c1 >= a.len() && c2 >= a.len() {
                assert(ap[c1] == kp[c1 - a.len()]);
                assert(ap[c2] == kp[c2 - a.len()]);
            } else {
                let (x, y) = if c1 < a.len() { (c1, i) } else { (c2, j) };
                let (z, w) = if c1 < a.len() { (c2, j) } else { (c1, i) };
                assert(from_comps(front, ap[x][y]));
                assert(comp.contains(ap[z][w]));
                let (cc, jj) = choose|cc: int, jj: int| 0 <= cc < front.len() && 0 <= jj < front[cc].len() && #[trigger] front[cc][jj] == ap[x][y];
                let kk = choose|kk: int| 0 <= kk < comp.len() && comp[kk] == ap[z][w];
                assert(comps[cc][jj] == front[cc][jj]);
                assert(comps[last][kk] == comp[kk]);
            }
        }
    }
}

/// The causal partition groups each component's kept pieces into modules of
/// their own: the pieces are disjoint, so every member of piece `c` gets
/// module `c` and nodes of different pieces never share one; a node gets a
/// module exactly when it is in a kept piece or listed in `rest`; each
/// listed node outside the pieces gets a fresh module shared with no other
/// node.
pub proof fn lemma_causal_partition(
    n: nat,
    links: Seq<(usize, usize)>,
    comps: Seq<Seq<usize>>,
    min: nat,
    max: nat,
    rest: Option<Seq<usize>>,
)
    requires
        is_component_partition(endpoints(n, links), links, comps),
        max > 0,
        all_pieces(comps, min, max).len() + match rest {
            Some(r) => r.len(),
            None => 0,
        } < 0xffff_ffff,
    ensures
        disjoint_clusters(n, all_pieces(comps, min, max)),
        ({
            let pieces = all_pieces(comps, min, max);
            let p = partition_of(n, pieces, rest);
            &&& p.len() == n
            &&& forall|c: int, i: int|
                0 <= c < pieces.len() && 0 <= i < pieces[c].len() ==> p[#[trigger] pieces[c][i] as int] == Some(
                    c as u32,
                )
            &&& forall|u: usize|
                (u as int) < n ==> (#[trigger] p[u as int] is Some <==> (in_cluster(pieces, u as int) || (
                rest matches Some(r) && r.contains(u))))
            &&& forall|u: usize, v: usize|
                (u as int) < n && (v as int) < n && !in_cluster(pieces, u as int) && #[trigger] p[u as int] is Some
                    && u != v && #[trigger] p[v as int] is Some ==> p[u as int] != p[v as int]
        }),
{
    assert(distinct_members(n, comps));
    lemma_pieces_disjoint(n, comps, min, max);
    lemma_partition_modules(n, all_pieces(comps, min, max), rest);
}

/// A component of `min` to `max` members is kept whole: it is one of the
/// pieces, so (by `lemma_causal_partition`) all its nodes share one module
/// that no node outside it has.
pub proof fn lemma_whole_component_kept(comps: Seq<Seq<usize>>, min: nat, max: nat, c: int) -> (p: int)
    requires
        0 <= c < comps.len(),
        min <= comps[c].len() <= max,
    ensures
        0 <= p < all_pieces(comps, min, max).len(),
        all_pieces(comps, min, max)[p] == comps[c],
    decreases comps.len(),
{
    let front = comps.drop_last();
    let a = all_pieces(front, min, max);
    assert(all_pieces(comps, min, max) == a + kept_pieces(comps.last(), min, max));
    if c == comps.len() - 1 {
        assert(kept_pieces(comps.last(), min, max) == seq![comps[c]]);
        a.len() as int
    } else {
        assert(front[c] == comps[c]);
        let p = lemma_whole_component_kept(front, min, max, c);
        p
    }
}

} // verus!
