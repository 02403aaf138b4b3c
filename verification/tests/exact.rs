use cgb_kdf::exact::{branch_children, ExactSolver, HybridSolver, SolverStrategy};

#[test]
fn solver_settings() {
    let s = ExactSolver::new();
    assert_eq!(s.max_nodes, 1_000_000);
    assert_eq!(s.max_modules, 10);
    assert!(s.use_initial_bound);
    let t = ExactSolver::with_settings(500, 3);
    assert_eq!(t.max_nodes, 500);
    assert_eq!(t.max_modules, 3);
    assert_eq!(t.module_limit(2), 2);
    assert_eq!(t.module_limit(8), 3);
    assert!(t.over_limit(501));
    assert!(!t.over_limit(500));
}

#[test]
fn hybrid_strategy_by_size() {
    let h = HybridSolver::new(12);
    assert_eq!(h.exact_threshold, 12);
    assert_eq!(h.strategy_for(12), SolverStrategy::Exact);
    assert_eq!(h.strategy_for(13), SolverStrategy::SimulatedAnnealing);
}

#[test]
fn children_reuse_modules_and_open_one_new() {
    let a = vec![Some(0u32), Some(1), Some(0), None, None];
    let kids = branch_children(&a, 3, 5);
    let mods: Vec<u32> = kids.iter().map(|c| c[3].unwrap()).collect();
    assert_eq!(mods.len(), 3);
    assert!(mods.contains(&0) && mods.contains(&1) && mods.contains(&2));
    for c in &kids {
        assert_eq!(&c[..3], &a[..3]);
        assert_eq!(c[4], None);
    }
}

#[test]
fn no_new_module_at_the_limit() {
    let a = vec![Some(0u32), Some(1), None];
    let kids = branch_children(&a, 2, 2);
    let mods: Vec<u32> = kids.iter().map(|c| c[2].unwrap()).collect();
    assert_eq!(mods.len(), 2);
    assert!(!mods.contains(&2));
    let first = branch_children(&vec![None, None], 0, 4);
    assert_eq!(first, vec![vec![Some(0), None]]);
}
