use cgb_kdf::labels::Layer;
use cgb_kdf::selection::{
    ablation_score, compute_degrees, dense_layers, kdf_select_linear, rank_by_key_desc,
    score_for_layer, select_by_layer_score, top_by_key, top_k_by_degree, ScoreAblation,
};

#[test]
fn layer_scores() {
    assert_eq!(score_for_layer(Layer::Rare), 3);
    assert_eq!(score_for_layer(Layer::Core), 2);
    assert_eq!(score_for_layer(Layer::Edge), 1);
    assert_eq!(score_for_layer(Layer::Garbage), 0);
    assert_eq!(ablation_score(ScoreAblation::NoRarePriority, Layer::Rare), 1);
    assert_eq!(ablation_score(ScoreAblation::NoCorePriority, Layer::Core), 1);
    assert_eq!(ablation_score(ScoreAblation::NoGarbageFilter, Layer::Garbage), 1);
    assert_eq!(ablation_score(ScoreAblation::Full, Layer::Rare), 3);
}

#[test]
fn ranking_orders_by_key_then_index() {
    let keys = vec![2usize, 5, 2, 7, 5, 0];
    assert_eq!(rank_by_key_desc(&keys), vec![3, 1, 4, 0, 2, 5]);
    assert_eq!(rank_by_key_desc(&vec![]), Vec::<u32>::new());
    assert_eq!(top_by_key(&keys, 3), vec![3, 1, 4]);
    assert_eq!(top_by_key(&keys, 0), Vec::<u32>::new());
    assert_eq!(top_by_key(&keys, 100), vec![3, 1, 4, 0, 2, 5]);
}

#[test]
fn degrees_skip_endpoints_out_of_range() {
    let edges = vec![(0u32, 1u32), (1, 2), (1, 9), (2, 2)];
    assert_eq!(compute_degrees(3, &edges), vec![1, 3, 3]);
}

#[test]
fn highest_degree_first() {
    let edges = vec![(0u32, 1u32), (1, 2), (1, 3), (3, 4)];
    assert_eq!(top_k_by_degree(5, &edges, 2), vec![1, 3]);
    assert_eq!(top_k_by_degree(5, &edges, 5), vec![1, 3, 0, 2, 4]);
}

#[test]
fn unassigned_nodes_default_to_edge() {
    let layers = dense_layers(4, &vec![(2, Layer::Rare), (7, Layer::Core), (0, Layer::Garbage), (2, Layer::Core)]);
    assert_eq!(layers, vec![Layer::Garbage, Layer::Edge, Layer::Core, Layer::Edge]);
}

#[test]
fn full_selection_prefers_rare_then_core() {
    let layers = vec![Layer::Edge, Layer::Core, Layer::Rare, Layer::Garbage, Layer::Rare, Layer::Edge];
    assert_eq!(select_by_layer_score(&layers, ScoreAblation::Full, 3), vec![2, 4, 1]);
    assert_eq!(select_by_layer_score(&layers, ScoreAblation::Full, 6), vec![2, 4, 1, 0, 5, 3]);
    assert_eq!(select_by_layer_score(&layers, ScoreAblation::NoRarePriority, 3), vec![1, 0, 2]);
    assert_eq!(select_by_layer_score(&layers, ScoreAblation::NoCorePriority, 3), vec![2, 4, 0]);
    assert_eq!(select_by_layer_score(&layers, ScoreAblation::NoGarbageFilter, 6), vec![2, 4, 1, 0, 3, 5]);
}

#[test]
fn linear_selection_never_keeps_garbage() {
    let layers = vec![Layer::Edge, Layer::Core, Layer::Rare, Layer::Garbage, Layer::Rare, Layer::Edge];
    assert_eq!(kdf_select_linear(&layers, 3), vec![2, 4, 1]);
    assert_eq!(kdf_select_linear(&layers, 10), vec![2, 4, 1, 0, 5]);
    assert_eq!(kdf_select_linear(&layers, 0), Vec::<u32>::new());
}

#[test]
fn linear_selection_matches_sorted_within_budget() {
    let layers = vec![
        Layer::Garbage, Layer::Edge, Layer::Rare, Layer::Core, Layer::Edge, Layer::Rare,
        Layer::Garbage, Layer::Core, Layer::Edge,
    ];
    for keep in 0..=7 {
        assert_eq!(
            kdf_select_linear(&layers, keep),
            select_by_layer_score(&layers, ScoreAblation::Full, keep)
        );
    }
}
