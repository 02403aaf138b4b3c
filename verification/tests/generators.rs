use cgb_kdf::generators::{
    add_unique_pair, high_degree_rare_name, structurally_isolated_name, temporal_snapshot_name,
    degree_one_nodes, high_degree_rare, large_scale, long_tail_graph, noise_edges, sparse_graph,
    structurally_isolated, temporal_snapshots,
};

#[test]
fn all_six_generators_produce_rare_truth() {
    let a = high_degree_rare(200, 3, 42);
    assert!(!a.rare.is_empty(), "A must have rare truth");

    let b = structurally_isolated(200, 3, 42);
    assert!(!b.rare.is_empty());

    let d_base = high_degree_rare(200, 1, 42);
    let noise = noise_edges(200, (d_base.edges.len() as f64 * 0.10).ceil() as usize, 42);
    assert!(!d_base.rare.is_empty());
    assert!(noise.len() <= (d_base.edges.len() as f64 * 0.10).ceil() as usize);

    let e = temporal_snapshots(200, 5, 42);
    assert_eq!(e.len(), 5);

    let f = large_scale(500, 42);
    assert!(!f.rare.is_empty());
}

fn out_degree(edges: &[(u32, u32)], id: u32) -> usize {
    edges.iter().filter(|e| e.0 == id).count()
}

#[test]
fn high_degree_rare_shape() {
    let g = high_degree_rare(500, 3, 7);
    // 10 hubs, 25 rare nodes
    assert_eq!(g.rare, (10u32..35).collect::<Vec<_>>());
    assert_eq!(&g.edges[..45], &(0u32..10).flat_map(|u| (u + 1..10).map(move |v| (u, v))).collect::<Vec<_>>()[..]);
    for id in 10u32..35 {
        let d = out_degree(&g.edges, id);
        assert!(d >= 1 && d <= 3);
    }
    for id in 35u32..500 {
        assert_eq!(out_degree(&g.edges, id), 3);
    }
    assert!(g.edges[45..].iter().all(|e| e.1 < 10));
}

#[test]
fn generators_are_deterministic_per_seed() {
    assert_eq!(high_degree_rare(300, 2, 9).edges, high_degree_rare(300, 2, 9).edges);
    assert_eq!(structurally_isolated(300, 2, 9).edges, structurally_isolated(300, 2, 9).edges);
}

#[test]
fn isolated_rare_links_only_rare() {
    let g = structurally_isolated(400, 2, 3);
    // 8 hubs, 20 rare
    for e in &g.edges[28..] {
        if e.0 >= 8 && e.0 < 28 {
            assert!(e.1 >= 8 && e.1 < 28 && e.1 != e.0);
        } else {
            assert!(e.1 < 8);
        }
    }
}

#[test]
fn small_graphs() {
    let g = high_degree_rare(3, 1, 1);
    assert_eq!(g.rare, vec![2]);
    assert_eq!(g.edges[0], (0, 1));
    let tiny = structurally_isolated(1, 4, 1);
    assert_eq!(tiny.rare, vec![2]);
    assert_eq!(tiny.edges, vec![(0, 1)]);
}

#[test]
fn snapshots_grow_and_decay() {
    let snaps = temporal_snapshots(200, 4, 5);
    // 4 hubs, (200 - 4) / 4 = 49 new nodes per step
    let nodes: Vec<usize> = snaps.iter().map(|s| s.n_nodes).collect();
    assert_eq!(nodes, vec![53, 102, 151, 200]);
    for s in &snaps {
        assert_eq!(s.rare, (4u32..14).collect::<Vec<_>>());
        assert!(s.edges.iter().all(|e| e.1 < 4 && (e.0 as usize) < s.n_nodes));
    }
    // step 0: 6 clique edges + 10 rare + 39 * 3 tail = 133, keep 113
    assert_eq!(snaps[0].edges.len(), 113);
}

#[test]
fn noise_pairs_are_proper() {
    let noise = noise_edges(10, 50, 1);
    assert!(noise.len() <= 50);
    assert!(noise.iter().all(|e| e.0 != e.1 && e.0 < 10 && e.1 < 10));
}

#[test]
fn degree_one_rare() {
    assert_eq!(degree_one_nodes(5, &vec![(0, 1), (1, 2), (3, 3)]), vec![0, 2]);
}

#[test]
fn long_tail_clusters_share_hubs() {
    // 1003 nodes: 20 hubs, 50 rare, 933 tail = 186 clusters of 5 and 3 left over
    let g = long_tail_graph(1003, 11);
    assert_eq!(g.n_nodes, 1003);
    assert_eq!(g.rare, (20u32..70).collect::<Vec<_>>());
    assert_eq!(g.edges, long_tail_graph(1003, 11).edges);
    // 190 clique edges, then one hub per rare node
    for (k, e) in g.edges[190..240].iter().enumerate() {
        assert_eq!(e.0, 20 + k as u32);
        assert!(e.1 < 20);
    }
    let hubs_of = |id: u32| -> Vec<u32> {
        g.edges.iter().filter(|e| e.0 == id && e.1 < 20).map(|e| e.1).collect()
    };
    for c in 0..186u32 {
        let head = 70 + 5 * c;
        let pattern = hubs_of(head);
        assert!(!pattern.is_empty() && pattern.len() <= 4);
        for m in 1..5 {
            assert_eq!(hubs_of(head + m), pattern);
            assert!(g.edges.contains(&(head + m, head)));
        }
    }
    for id in 1000u32..1003 {
        assert_eq!(out_degree(&g.edges, id), 1);
    }
    for id in 20u32..70 {
        let touching: Vec<&(u32, u32)> = g.edges.iter().filter(|e| e.0 == id || e.1 == id).collect();
        assert_eq!(touching.len(), 1);
        assert!(touching[0].0 == id && touching[0].1 < 20);
    }
    let last = g.edges.last().copied().unwrap();
    assert_eq!(last.0, 1002);
}

#[test]
fn sparse_graph_is_linear_in_size() {
    // 20000 nodes: 20 hubs, 1000 rare nodes, 18980 tail nodes
    let g = sparse_graph(20000, 42);
    assert_eq!(g.n_nodes, 20000);
    assert_eq!(g.rare, (20u32..1020).collect::<Vec<_>>());
    assert_eq!(g.edges, sparse_graph(20000, 42).edges);
    assert!(g.edges.iter().all(|e| e.1 < 20));
    for hub in 0u32..20 {
        assert!(out_degree(&g.edges, hub) <= 20);
    }
    assert!(g.edges.iter().filter(|e| e.0 < 20).all(|e| e.0 != e.1));
    for id in 20u32..1020 {
        assert_eq!(out_degree(&g.edges, id), 1);
    }
    for id in 1020u32..20000 {
        assert_eq!(out_degree(&g.edges, id), 3);
    }
    let hub_edges = g.edges.iter().filter(|e| e.0 < 20).count();
    assert_eq!(g.edges.len(), hub_edges + 1000 + 3 * 18980);
}

#[test]
fn sparse_graph_below_hub_count() {
    let g = sparse_graph(5, 1);
    assert_eq!(g.n_nodes, 5);
    assert!(g.rare.is_empty());
    assert!(g.edges.iter().all(|e| e.0 < 10 && e.1 < 10 && e.0 != e.1));
}

#[test]
fn unique_pairs_only() {
    let mut edges = Vec::new();
    assert!(add_unique_pair(4, &mut edges, 0, 1));
    assert!(!add_unique_pair(4, &mut edges, 1, 0));
    assert!(!add_unique_pair(4, &mut edges, 2, 2));
    assert!(add_unique_pair(4, &mut edges, 2, 1));
    assert!(!add_unique_pair(4, &mut edges, 0, 1));
    assert_eq!(edges, vec![(0, 1), (2, 1)]);
}

#[test]
fn dataset_names_carry_their_parameter() {
    assert_eq!(high_degree_rare_name(3), "Adv_A_HighDegRare_deg3");
    assert_eq!(structurally_isolated_name(0), "Adv_B_Isolated_deg0");
    assert_eq!(temporal_snapshot_name(120), "Adv_E_Temporal_t120");
    assert_eq!(high_degree_rare_name(usize::MAX), format!("Adv_A_HighDegRare_deg{}", usize::MAX));
}
