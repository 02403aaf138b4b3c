use cgb_kdf::bias::{degree_one_counts, rare_degree_tally, BiasLevel};

#[test]
fn degree_one_counting() {
    assert_eq!(degree_one_counts(&vec![1, 1, 1, 5, 5, 5]), (6, 3));
    assert_eq!(degree_one_counts(&vec![0, 0, 1, 2]), (2, 1));
    assert_eq!(degree_one_counts(&vec![]), (0, 0));
}

#[test]
fn rare_ids_count_once() {
    let deg = vec![1u32, 1, 3, 1];
    // ids 0, 1 repeated; 9 is out of range: counted as rare, no degree
    assert_eq!(rare_degree_tally(&deg, &vec![0, 1, 0, 2, 9, 1]), (4, 2, 5));
    assert_eq!(rare_degree_tally(&deg, &vec![]), (0, 0, 0));
}

#[test]
fn star_graph_counts() {
    let mut degrees = vec![100u32];
    degrees.extend(std::iter::repeat(1u32).take(100));
    let rare: Vec<u32> = (1..=100u32).collect();
    assert_eq!(degree_one_counts(&degrees), (101, 100));
    assert_eq!(rare_degree_tally(&degrees, &rare), (100, 100, 100));
}

#[test]
fn levels_are_distinct() {
    assert_ne!(BiasLevel::Low, BiasLevel::High);
    assert_eq!(BiasLevel::Moderate, BiasLevel::Moderate);
}
