use cgb_kdf::components::connected_components;
use cgb_kdf::partition::{assign_partition, build_partition_from_links, causal_clusters, split_cluster};

#[test]
fn test_partition_builder() {
    // A B C D E F = 0..6
    let links = vec![(0usize, 1usize), (1, 2), (3, 4)];
    let all: Vec<usize> = (0..6).collect();
    let p = build_partition_from_links(6, &links, 2, 50, Some(&all));
    assert_eq!(p[0], p[1]);
    assert_eq!(p[1], p[2]);
    assert_eq!(p[3], p[4]);
    assert_ne!(p[0], p[3]);
    assert!(p[5].is_some());
    assert_ne!(p[5], p[0]);
    assert_ne!(p[5], p[3]);
}

#[test]
fn test_partition_builder_no_all_nodes() {
    let links = vec![(0usize, 1usize)];
    let p = build_partition_from_links(3, &links, 2, 50, None);
    assert!(p[0].is_some());
    assert!(p[1].is_some());
    assert!(p[2].is_none());
}

#[test]
fn test_partition_builder_large_cluster_split() {
    let links: Vec<(usize, usize)> = (0..60).map(|i| (i, i + 1)).collect();
    let p = build_partition_from_links(61, &links, 2, 50, None);
    let ids: std::collections::HashSet<u32> = p.iter().flatten().copied().collect();
    assert_eq!(ids.len(), 2);
    assert!(p.iter().all(|x| x.is_some()));
}

#[test]
fn small_components_are_dropped() {
    let active = vec![true, true, true, true, true];
    let links = vec![(0usize, 1usize), (1, 2), (3, 4)];
    let clusters = causal_clusters(&active, &links, 3, 50);
    assert_eq!(clusters.len(), 1);
    let mut c = clusters[0].clone();
    c.sort();
    assert_eq!(c, vec![0, 1, 2]);
}

#[test]
fn split_sizes() {
    let nodes: Vec<usize> = (0..10).collect();
    let pieces = split_cluster(&nodes, 4);
    // 10 / 4 + 1 = 3 pieces of 10 / 3 = 3, the last takes the rest
    assert_eq!(pieces, vec![vec![0, 1, 2], vec![3, 4, 5], vec![6, 7, 8, 9]]);
    let six: Vec<usize> = (0..6).collect();
    assert_eq!(split_cluster(&six, 3), vec![vec![0, 1], vec![2, 3], vec![4, 5]]);
    let eight: Vec<usize> = (0..8).collect();
    assert_eq!(split_cluster(&eight, 4), vec![vec![0, 1], vec![2, 3], vec![4, 5, 6, 7]]);
    // the last piece would take 3 nodes, above the maximum of 2: balanced cut
    let five: Vec<usize> = (0..5).collect();
    assert_eq!(split_cluster(&five, 2), vec![vec![0, 1], vec![2, 3], vec![4]]);
    assert_eq!(split_cluster(&vec![], 3), vec![Vec::<usize>::new()]);
    assert_eq!(split_cluster(&nodes, 20), vec![nodes.clone()]);
}

#[test]
fn fresh_ids_follow_the_largest() {
    let clusters = vec![vec![0usize, 1], vec![3usize]];
    let rest = vec![0usize, 2, 4, 2];
    let p = assign_partition(5, &clusters, Some(&rest));
    assert_eq!(p, vec![Some(0), Some(0), Some(2), Some(1), Some(3)]);
    let none = assign_partition(2, &vec![], Some(&vec![1usize]));
    assert_eq!(none, vec![None, Some(1)]);
}

#[test]
fn components_cover_active_nodes() {
    let active = vec![true, false, true, true, true];
    let edges = vec![(0usize, 1usize), (0, 2), (3, 4)];
    let mut comps: Vec<Vec<usize>> = connected_components(&active, &edges)
        .into_iter()
        .map(|mut c| {
            c.sort();
            c
        })
        .collect();
    comps.sort();
    assert_eq!(comps, vec![vec![0, 2], vec![3, 4]]);
}

#[test]
fn chain_split_never_exceeds_max() {
    // chain of 5 nodes, clusters of at most 2
    let links: Vec<(usize, usize)> = (0..4).map(|i| (i, i + 1)).collect();
    let p = build_partition_from_links(5, &links, 2, 2, None);
    assert!(p.iter().all(|x| x.is_some()));
    let mut counts = std::collections::HashMap::new();
    for id in p.iter().flatten() {
        *counts.entry(*id).or_insert(0) += 1;
    }
    assert_eq!(counts.len(), 3);
    assert!(counts.values().all(|&c| c <= 2));
}
