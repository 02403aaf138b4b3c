use cgb_kdf::insights::{generate_insights, Insight};

#[test]
fn empty_graph_is_nominal() {
    assert_eq!(generate_insights(&vec![], &vec![], &vec![]), vec![Insight::Nominal]);
}

#[test]
fn long_edge_chain_consolidates() {
    // one Edge cluster of 15 connected nodes
    assert_eq!(
        generate_insights(&vec![15], &vec![], &vec![]),
        vec![Insight::EdgeConsolidating { clusters: 1 }]
    );
}

#[test]
fn average_of_exactly_five_is_not_large() {
    assert_eq!(generate_insights(&vec![5, 5], &vec![], &vec![]), vec![Insight::Nominal]);
    assert_eq!(
        generate_insights(&vec![5, 6], &vec![], &vec![]),
        vec![Insight::EdgeConsolidating { clusters: 2 }]
    );
}

#[test]
fn many_small_edge_clusters_scatter() {
    assert_eq!(
        generate_insights(&vec![1; 11], &vec![], &vec![]),
        vec![Insight::EdgeScattered { clusters: 11 }]
    );
    assert_eq!(generate_insights(&vec![1; 10], &vec![], &vec![]), vec![Insight::Nominal]);
}

#[test]
fn isolated_rare_nodes_are_counted() {
    assert_eq!(
        generate_insights(&vec![], &vec![1, 3, 1], &vec![]),
        vec![Insight::IsolatedRare { count: 2 }]
    );
}

#[test]
fn large_core_cluster_and_order() {
    assert_eq!(
        generate_insights(&vec![20], &vec![1], &vec![4, 15, 11]),
        vec![
            Insight::EdgeConsolidating { clusters: 1 },
            Insight::IsolatedRare { count: 1 },
            Insight::LargeCore { size: 15 },
        ]
    );
    assert_eq!(generate_insights(&vec![], &vec![], &vec![10]), vec![Insight::Nominal]);
}
