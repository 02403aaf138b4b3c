//! The counting part of benchmark bias detection: how many nodes have degree
//! one, and how the ground-truth rare nodes sit among the degrees.

use vstd::prelude::*;

verus! {

/// How strongly a benchmark favours structure-based selection.
#[derive(Clone, Copy, Debug, PartialEq, Eq, Structural)]
pub enum BiasLevel {
    Low,
    Moderate,
    High,
}

/// Number of entries of `deg` below `m` that satisfy `d > 0` (`one == false`)
/// or `d == 1` (`one == true`).
pub open spec fn count_degrees(deg: Seq<u32>, m: int, one: bool) -> nat
    decreases m,
{
    if m <= 0 {
        0
    } else {
        count_degrees(deg, m - 1, one) + (if (one && deg[m - 1] == 1) || (!one && deg[m - 1]
            > 0) {
            1nat
        } else {
            0nat
        })
    }
}

/// Nodes of nonzero degree and nodes of degree exactly one.
pub fn degree_one_counts(deg: &Vec<u32>) -> (r: (usize, usize))
    ensures
        r.0 == count_degrees(deg@, deg.len() as int, false),
        r.1 == count_degrees(deg@, deg.len() as int, true),
{
    let mut nonzero: usize = 0;
    let mut ones: usize = 0;
    let mut i: usize = 0;
    while i < deg.len()
        invariant
            i <= deg.len(),
            nonzero == count_degrees(deg@, i as int, false),
            ones == count_degrees(deg@, i as int, true),
            nonzero <= i,
            ones <= i,
        decreases deg.len() - i,
    {
        if deg[i] > 0 {
            nonzero = nonzero + 1;
        }
        if deg[i] == 1 {
            ones = ones + 1;
        }
        i = i + 1;
    }
    (nonzero, ones)
}

/// The rare ids below `m` that occur for the first time (a repeated id counts once).
pub open spec fn first_occurrence(ids: Seq<u32>, i: int) -> bool {
    !ids.take(i).contains(ids[i])
}

/// Over the distinct ids among the first `m`: how many there are, how many
/// name a node of degree one, and the sum of the degrees of those that name a node.
pub open spec fn rare_tally(deg: Seq<u32>, ids: Seq<u32>, m: int) -> (nat, nat, nat)
    decreases m,
{
    if m <= 0 {
        (0, 0, 0)
    } else {
        let prev = rare_tally(deg, ids, m - 1);
        let id = ids[m - 1] as int;
        if first_occurrence(ids, m - 1) {
            (
                prev.0 + 1,
                prev.1 + (if id < deg.len() && deg[id] == 1 {
                    1nat
                } else {
                    0nat
                }),
                prev.2 + (if id < deg.len() {
                    deg[id] as nat
                } else {
                    0nat
                }),
            )
        } else {
            prev
        }
    }
}

proof fn lemma_tally_bounds(deg: Seq<u32>, ids: Seq<u32>, m: int)
    requires
        0 <= m <= ids.len(),
    ensures
        rare_tally(deg, ids, m).0 <= m,
        rare_tally(deg, ids, m).1 <= rare_tally(deg, ids, m).0,
        rare_tally(deg, ids, m).2 <= m * 0xffff_ffff,
    decreases m,
{
    if m > 0 {
        lemma_tally_bounds(deg, ids, m - 1);
    }
}

/// Distinct rare ids, those of them at degree one, and the degree sum of those
/// that name a node.
pub fn rare_degree_tally(deg: &Vec<u32>, rare_ids: &Vec<u32>) -> (r: (usize, usize, u64))
    requires
        rare_ids.len() <= 0xffff_ffff,
    ensures
        r.0 == rare_tally(deg@, rare_ids@, rare_ids.len() as int).0,
        r.1 == rare_tally(deg@, rare_ids@, rare_ids.len() as int).1,
        r.2 == rare_tally(deg@, rare_ids@, rare_ids.len() as int).2,
{
    let mut distinct: usize = 0;
    let mut ones: usize = 0;
    let mut sum: u64 = 0;
    let mut i: usize = 0;
    while i < rare_ids.len()
        invariant
            i <= rare_ids.len(),
            rare_ids.len() <= 0xffff_ffff,
            distinct == rare_tally(deg@, rare_ids@, i as int).0,
            ones == rare_tally(deg@, rare_ids@, i as int).1,
            sum == rare_tally(deg@, rare_ids@, i as int).2,
        decreases rare_ids.len() - i,
    {
        proof {
            lemma_tally_bounds(deg@, rare_ids@, i as int);
            assert(i * 0xffff_ffff + 0xffff_ffff <= 0xffff_ffff * 0xffff_ffff) by (nonlinear_arith)
                requires
                    i < 0xffff_ffff,
            ;
        }
        let id = rare_ids[i];
        let mut seen = false;
        let mut j: usize = 0;
        while j < i
            invariant
                j <= i,
                i < rare_ids.len(),
                id == rare_ids[i as int],
                seen == rare_ids@.take(j as int).contains(id),
            decreases i - j,
        {
            let ghost before = rare_ids@.take(j as int);
            let ghost after = rare_ids@.take(j + 1);
            assert(after =~= before.push(rare_ids[j as int]));
            if rare_ids[j] == id {
                seen = true;
                assert(after[j as int] == id);
            } else {
                proof {
                    if after.contains(id) {
                        let p = choose|p: int| 0 <= p < after.len() && after[p] == id;
                        assert(before[p] == id);
                    }
                    if before.contains(id) {
                        let p = choose|p: int| 0 <= p < before.len() && before[p] == id;
                        assert(after[p] == id);
                    }
                }
            }
            j = j + 1;
        }
        if !seen {
            distinct = distinct + 1;
            if (id as usize) < deg.len() {
                if deg[id as usize] == 1 {
                    ones = ones + 1;
                }
                sum = sum + deg[id as usize] as u64;
            }
        }
        i = i + 1;
    }
    (distinct, ones, sum)
}

} // verus!
