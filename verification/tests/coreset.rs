use cgb_kdf::coreset::{coreset_select, farthest_first_order};

#[test]
fn farthest_first_picks_largest_gap_then_largest_index() {
    let deg = vec![1usize, 5, 2, 9, 5];
    assert_eq!(farthest_first_order(&deg, 0, 3), vec![0, 3, 4]);
    assert_eq!(farthest_first_order(&deg, 0, 0), vec![0]);
    assert_eq!(farthest_first_order(&deg, 0, 10), vec![0, 3, 4, 2, 1]);
    assert_eq!(farthest_first_order(&deg, 3, 2), vec![3, 0]);
}

#[test]
fn seeded_core_set_is_deterministic() {
    let edges = vec![(0u32, 1u32), (1, 2), (1, 3), (3, 4), (4, 5)];
    let a = coreset_select(6, &edges, 3, 11);
    let b = coreset_select(6, &edges, 3, 11);
    assert_eq!(a, b);
    assert_eq!(a.len(), 3);
    let mut sorted = a.clone();
    sorted.sort();
    sorted.dedup();
    assert_eq!(sorted.len(), 3);
}
