//! Branch & Bound over module assignments: the solver settings and the
//! branching step.
//!
//! A partial assignment gives nodes `0..level` a module and leaves the rest
//! unassigned. Branching gives node `level` each module already in use, and
//! one new module (one past the largest in use) while fewer than `k` are in
//! use. The children differ from their parent only at `level`, no two give
//! the node the same module, and a canonically numbered prefix stays
//! canonical.

use vstd::prelude::*;

verus! {

/// Exact solver settings.
pub struct ExactSolver {
    /// Maximum nodes of the search tree to explore before giving up.
    pub max_nodes: u64,
    /// Maximum number of modules to consider.
    pub max_modules: u32,
    /// Use an initial bound from a heuristic.
    pub use_initial_bound: bool,
}

impl ExactSolver {
    /// The default settings: a million search nodes, ten modules.
    pub fn new() -> (s: Self)
        ensures
            s.max_nodes == 1_000_000,
            s.max_modules == 10,
            s.use_initial_bound,
    {
        ExactSolver { max_nodes: 1_000_000, max_modules: 10, use_initial_bound: true }
    }

    /// Custom limits.
    pub fn with_settings(max_nodes: u64, max_modules: u32) -> (s: Self)
        ensures
            s.max_nodes == max_nodes,
            s.max_modules == max_modules,
            s.use_initial_bound,
    {
        ExactSolver { max_nodes, max_modules, use_initial_bound: true }
    }

    /// The number of modules tried for `n` nodes: `max_modules`, but no
    /// more than the nodes.
    pub fn module_limit(&self, n: usize) -> (k: u32)
        ensures
            k as int == if (self.max_modules as int) < (n as int) {
                self.max_modules as int
            } else {
                n as int
            },
    {
        if (self.max_modules as usize) < n {
            self.max_modules
        } else {
            n as u32
        }
    }

    /// The search stops once more than `max_nodes` nodes were explored.
    pub fn over_limit(&self, nodes_explored: u64) -> (b: bool)
        ensures
            b == (nodes_explored > self.max_nodes),
    {
        nodes_explored > self.max_nodes
    }
}

impl Default for ExactSolver {
    fn default() -> (s: Self)
        ensures
            s.max_nodes == 1_000_000,
            s.max_modules == 10,
            s.use_initial_bound,
    {
        ExactSolver::new()
    }
}

/// Strategy used by the hybrid solver.
#[derive(Clone, Debug, PartialEq, Eq, Structural)]
pub enum SolverStrategy {
    Exact,
    SimulatedAnnealing,
    Hybrid,
}

/// Hybrid solver: the exact search for small graphs, annealing for the rest.
pub struct HybridSolver {
    /// Largest graph (in nodes) solved exactly.
    pub exact_threshold: usize,
    /// Iterations of the annealing run.
    pub sa_max_iterations: u64,
    /// The exact solver used for small graphs.
    pub exact_solver: ExactSolver,
}

impl HybridSolver {
    /// A hybrid solver with the given threshold, 1000 annealing iterations
    /// and the default exact solver.
    pub fn new(exact_threshold: usize) -> (s: Self)
        ensures
            s.exact_threshold == exact_threshold,
            s.sa_max_iterations == 1000,
            s.exact_solver.max_nodes == 1_000_000,
            s.exact_solver.max_modules == 10,
            s.exact_solver.use_initial_bound,
    {
        HybridSolver { exact_threshold, sa_max_iterations: 1000, exact_solver: ExactSolver::new() }
    }

    /// The strategy for a graph of `n` distinct nodes.
    pub fn strategy_for(&self, n: usize) -> (st: SolverStrategy)
        ensures
            st == if n <= self.exact_threshold {
                SolverStrategy::Exact
            } else {
                SolverStrategy::SimulatedAnnealing
            },
    {
        if n <= self.exact_threshold {
            SolverStrategy::Exact
        } else {
            SolverStrategy::SimulatedAnnealing
        }
    }
}

/// The largest module among positions `0..i`, or -1 when there is none.
pub open spec fn top_module(a: Seq<Option<u32>>, i: int) -> int
    decreases i,
{
    if i <= 0 {
        -1
    } else {
        let t = top_module(a, i - 1);
        match a[i - 1] {
            Some(m) => if m as int > t {
                m as int
            } else {
                t
            },
            None => t,
        }
    }
}

/// Nodes `0..level` have modules, numbered canonically (each at most one
/// past the largest before it), and the other nodes have none.
pub open spec fn canonical_prefix(a: Seq<Option<u32>>, level: int) -> bool {
    &&& 0 <= level <= a.len()
    &&& forall|i: int| 0 <= i < level ==> #[trigger] a[i] is Some && a[i]->0 <= top_module(a, i) + 1
    &&& forall|i: int| level <= i < a.len() ==> #[trigger] a[i] is None
}

/// Module `m` is used by some node.
pub open spec fn uses_module(a: Seq<Option<u32>>, m: u32) -> bool {
    exists|i: int| 0 <= i < a.len() && a[i] == Some(m)
}

/// The module given to the branching node in a child.
pub open spec fn child_module(child: Seq<Option<u32>>, level: int) -> u32 {
    child[level]->0
}

proof fn lemma_top_bounds(a: Seq<Option<u32>>, i: int)
    requires
        0 <= i <= a.len(),
    ensures
        top_module(a, i) >= -1,
        forall|j: int| 0 <= j < i && #[trigger] a[j] is Some ==> a[j]->0 <= top_module(a, i),
        top_module(a, i) == -1 || exists|j: int| 0 <= j < i && a[j] == Some(top_module(a, i) as u32),
        top_module(a, i) <= u32::MAX,
    decreases i,
{
    if i > 0 {
        lemma_top_bounds(a, i - 1);
    }
}

proof fn lemma_top_unassigned(a: Seq<Option<u32>>, i: int, j: int)
    requires
        0 <= i <= j <= a.len(),
        forall|x: int| i <= x < j ==> #[trigger] a[x] is None,
    ensures
        top_module(a, j) == top_module(a, i),
    decreases j - i,
{
    if j > i {
        lemma_top_unassigned(a, i, j - 1);
    }
}

proof fn lemma_top_update(a: Seq<Option<u32>>, level: int, m: u32, i: int)
    requires
        0 <= i <= level < a.len(),
    ensures
        top_module(a.update(level, Some(m)), i) == top_module(a, i),
    decreases i,
{
    if i > 0 {
        lemma_top_update(a, level, m, i - 1);
    }
}

/// The children of a search node whose first `level` nodes have modules:
/// node `level` gets each module in use, and, while it is below `k`, one
/// new module one past the largest in use.
pub fn branch_children(assignment: &Vec<Option<u32>>, level: usize, k: u32) -> (children: Vec<Vec<Option<u32>>>)
    requires
        level < assignment.len(),
    ensures
        forall|c: int| 0 <= c < children.len() ==> (#[trigger] children[c])@ == assignment@.update(
            level as int,
            Some(child_module(children[c]@, level as int)),
        ),
        forall|c: int, d: int|
            0 <= c < d < children.len() ==> child_module(#[trigger] children[c]@, level as int)
                != child_module(#[trigger] children[d]@, level as int),
        forall|m: u32| #[trigger] uses_module(assignment@, m) ==> exists|c: int|
            0 <= c < children.len() && child_module(children[c]@, level as int) == m,
        forall|c: int|
            0 <= c < children.len() ==> uses_module(assignment@, child_module(#[trigger] children[c]@, level as int))
                || (child_module(children[c]@, level as int) == top_module(assignment@, assignment.len() as int) + 1
                && child_module(children[c]@, level as int) < k),
        top_module(assignment@, assignment.len() as int) + 1 < k ==> exists|c: int|
            0 <= c < children.len() && child_module(children[c]@, level as int) == top_module(assignment@, assignment.len() as int) + 1,
        canonical_prefix(assignment@, level as int) ==> forall|c: int|
            0 <= c < children.len() ==> canonical_prefix(#[trigger] children[c]@, level + 1),
{
    let n = assignment.len();
    // distinct modules in use, in order of first use
    let mut used: Vec<u32> = Vec::new();
    let mut top: Option<u32> = None;
    let mut i: usize = 0;
    while i < n
        invariant
            i <= n,
            n == assignment.len(),
            forall|x: int, y: int| 0 <= x < y < used.len() ==> used[x] != used[y],
            forall|m: u32| used@.contains(m) <==> exists|j: int| 0 <= j < i && assignment@[j] == Some(m),
            top == (if top_module(assignment@, i as int) == -1 { None::<u32> } else { Some(top_module(assignment@, i as int) as u32) }),
        decreases n - i,
    {
        proof {
            lemma_top_bounds(assignment@, i as int);
            lemma_top_bounds(assignment@, i + 1);
        }
        let ghost old_used = used@;
        match assignment[i] {
            None => {},
            Some(m) => {
                let mut found = false;
                let mut t: usize = 0;
                while t < used.len()
                    invariant
                        t <= used.len(),
                        found == exists|x: int| 0 <= x < t && used[x] == m,
                    decreases used.len() - t,
                {
                    if used[t] == m {
                        found = true;
                    }
                    t = t + 1;
                }
                if !found {
                    used.push(m);
                }
                match top {
                    None => { top = Some(m); },
                    Some(x) => {
                        if m > x {
                            top = Some(m);
                        }
                    },
                }
            },
        }
        proof {
            assert forall|m: u32| used@.contains(m) <==> exists|j: int| 0 <= j < i + 1 && assignment@[j] == Some(m) by {
                if used@.contains(m) {
                    let x = choose|x: int| 0 <= x < used.len() && used@[x] == m;
                    if x < old_used.len() {
                        assert(old_used[x] == m);
                        assert(old_used.contains(m));
                    } else {
                        assert(assignment@[i as int] == Some(m));
                    }
                }
                if exists|j: int| 0 <= j < i + 1 && assignment@[j] == Some(m) {
                    let j = choose|j: int| 0 <= j < i + 1 && assignment@[j] == Some(m);
                    if j < i {
                        assert(old_used.contains(m));
                        let x = choose|x: int| 0 <= x < old_used.len() && old_used[x] == m;
                        assert(used@[x] == m);
                    } else if old_used.contains(m) {
                        let x = choose|x: int| 0 <= x < old_used.len() && old_used[x] == m;
                        assert(used@[x] == m);
                    } else {
                        assert(used@.last() == m);
                    }
                }
            }
        }
        i = i + 1;
    }
    let mut children: Vec<Vec<Option<u32>>> = Vec::new();
    let mut c: usize = 0;
    while c < used.len()
        invariant
            c <= used.len(),
            level < assignment.len(),
            children.len() == c,
            forall|x: int| 0 <= x < c ==> (#[trigger] children[x])@ == assignment@.update(level as int, Some(used[x])),
        decreases used.len() - c,
    {
        let mut child = assignment.clone();
        proof {
            assert(child@ =~= assignment@) by {
                assert forall|x: int| 0 <= x < child.len() implies child@[x] == assignment@[x] by {
                    assert(cloned::<Option<u32>>(assignment[x], child[x]));
                }
            }
        }
        child.set(level, Some(used[c]));
        children.push(child);
        c = c + 1;
    }
    let next: u64 = match top {
        None => 0,
        Some(x) => x as u64 + 1,
    };
    if next < k as u64 {
        let mut child = assignment.clone();
        proof {
            assert(child@ =~= assignment@) by {
                assert forall|x: int| 0 <= x < child.len() implies child@[x] == assignment@[x] by {
                    assert(cloned::<Option<u32>>(assignment[x], child[x]));
                }
            }
        }
        child.set(level, Some(next as u32));
        children.push(child);
    }
    proof {
        lemma_top_bounds(assignment@, n as int);
        let used_len = used.len() as int;
        assert forall|x: int| 0 <= x < children.len() implies child_module(#[trigger] children[x]@, level as int)
            == if x < used_len { used[x] } else { next as u32 } by {}
        // modules in use are below `next`, so the new one is distinct
        assert forall|x: int| 0 <= x < used_len implies (used[x] as int) < next by {
            assert(used@.contains(used[x]));
        }
        assert forall|m: u32| #[trigger] uses_module(assignment@, m) implies exists|x: int|
            0 <= x < children.len() && child_module(children[x]@, level as int) == m by {
            assert(used@.contains(m));
            let x = choose|x: int| 0 <= x < used.len() && used[x] == m;
            assert(child_module(children[x]@, level as int) == m);
        }
        assert forall|x: int|
            0 <= x < children.len() implies uses_module(assignment@, child_module(#[trigger] children[x]@, level as int))
                || (child_module(children[x]@, level as int) == top_module(assignment@, n as int) + 1
                && child_module(children[x]@, level as int) < k) by {
            if x < used_len {
                assert(used@.contains(used[x]));
            }
        }
        if top_module(assignment@, n as int) + 1 < k {
            assert(children.len() == used_len + 1);
            assert(child_module(children[used_len]@, level as int) == top_module(assignment@, n as int) + 1);
        }
        if canonical_prefix(assignment@, level as int) {
            lemma_top_unassigned(assignment@, level as int, n as int);
            assert forall|x: int| 0 <= x < children.len() implies canonical_prefix(#[trigger] children[x]@, level + 1) by {
                let ch = children[x]@;
                let m = child_module(ch, level as int);
                assert forall|i: int| 0 <= i < level + 1 implies #[trigger] ch[i] is Some && ch[i]->0 <= top_module(ch, i) + 1 by {
                    lemma_top_update(assignment@, level as int, m, i);
                    if i == level as int {
                        if x < used_len {
                            assert(used@.contains(used[x]));
                            let j = choose|j: int| 0 <= j < n && assignment@[j] == Some(used[x]);
                            assert(j < level);
                        }
                    }
                }
            }
        }
    }
    children
}

} // verus!
