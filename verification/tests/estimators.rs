use cgb_kdf::estimators::{pattern_rank, CausalKdfStats, GaussianEstimator, SymbolicEstimator, TeStrategy};

#[test]
fn test_te_strategy_variants() {
    assert_eq!(TeStrategy::Screening, TeStrategy::Screening);
    assert_eq!(TeStrategy::DeepProbe, TeStrategy::DeepProbe);
    assert_eq!(TeStrategy::Validation, TeStrategy::Validation);
}

#[test]
fn test_te_strategy_clone_and_debug() {
    let strategy = TeStrategy::DeepProbe;
    let cloned = strategy;
    assert_eq!(strategy, cloned);
    let debug_str = format!("{:?}", strategy);
    assert!(debug_str.contains("DeepProbe"));
}

#[test]
fn test_gaussian_estimator_custom_params() {
    let estimator = GaussianEstimator::new(2, 20);
    assert_eq!(estimator.lag, 2);
    assert_eq!(estimator.min_samples, 20);
    assert_eq!(estimator.name(), "Gaussian");
}

#[test]
fn test_symbolic_estimator_custom_params() {
    let estimator = SymbolicEstimator::new(4, 2, 100);
    assert_eq!(estimator.dim, 4);
    assert_eq!(estimator.delay, 2);
    assert_eq!(estimator.min_samples, 100);
    assert_eq!(estimator.name(), "Symbolic");
}

#[test]
fn test_causal_kdf_stats_default() {
    let stats = CausalKdfStats::default();
    assert_eq!(stats.screening_calls, 0);
    assert_eq!(stats.deep_probe_calls, 0);
    assert_eq!(stats.validation_calls, 0);
    assert_eq!(stats.significant_links_found, 0);
}

#[test]
fn estimator_defaults() {
    let g = GaussianEstimator::default();
    assert_eq!((g.lag, g.min_samples), (1, 10));
    let s = SymbolicEstimator::default();
    assert_eq!((s.dim, s.delay, s.min_samples), (3, 1, 50));
    let c = CausalKdfStats::default();
    assert_eq!(c.false_positives_filtered, 0);
    assert_eq!(c.isolated_truths_detected, 0);
}

#[test]
fn strategies_are_distinct() {
    assert_ne!(TeStrategy::Screening, TeStrategy::DeepProbe);
    assert_ne!(TeStrategy::DeepProbe, TeStrategy::Validation);
}

#[test]
fn pattern_ranks() {
    assert_eq!(pattern_rank(&vec![]), 0);
    assert_eq!(pattern_rank(&vec![0, 1, 2]), 0);
    assert_eq!(pattern_rank(&vec![2, 1, 0]), 5);
    assert_ne!(pattern_rank(&vec![0, 1, 2]), pattern_rank(&vec![2, 1, 0]));
    assert_eq!(pattern_rank(&vec![1, 0, 2]), 1);
    assert_eq!(pattern_rank(&vec![0, 2, 1]), 3);
}

#[test]
fn pattern_ranks_of_three_are_all_distinct_and_below_six() {
    let perms = [[0usize, 1, 2], [0, 2, 1], [1, 0, 2], [1, 2, 0], [2, 0, 1], [2, 1, 0]];
    let mut seen = std::collections::HashSet::new();
    for p in perms.iter() {
        let r = pattern_rank(&p.to_vec());
        assert!(r < 6);
        seen.insert(r);
    }
    assert_eq!(seen.len(), 6);
}

#[test]
fn test_symbolic_window_to_pattern() {
    // windows [1, 2, 3] and [3, 2, 1]: their positions from smallest value up
    let rank1 = pattern_rank(&vec![0, 1, 2]);
    let rank2 = pattern_rank(&vec![2, 1, 0]);
    assert_ne!(rank1, rank2);
    // empty window
    assert_eq!(pattern_rank(&vec![]), 0);
}
