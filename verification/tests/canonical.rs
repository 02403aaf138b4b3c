use cgb_kdf::canonical::KdfSel;
use cgb_kdf::labels::Layer::{Core, Edge, Garbage, Rare};

#[test]
fn keeps_core_rare_and_one_edge_per_neighbor_set() {
    let layers = vec![Core, Rare, Garbage, Edge, Edge, Edge, Edge];
    // node 4 repeats node 3's neighbours; node 6 has a neighbour beyond the layers
    let edges = vec![(3, 0), (4, 0), (4, 0), (5, 1), (0, 1), (6, 9)];
    assert_eq!(KdfSel.select(&edges, &layers), vec![0, 1, 3, 5, 6]);
}

#[test]
fn isolated_edge_nodes_form_one_cluster() {
    let layers = vec![Edge; 3];
    assert_eq!(KdfSel.select(&vec![], &layers), vec![0]);
}

#[test]
fn neighbor_sets_not_lists() {
    // 2 and 3 both have neighbours {0, 1}, listed in other orders and with repeats
    let layers = vec![Core, Core, Edge, Edge, Edge];
    let edges = vec![(2, 1), (0, 2), (3, 0), (1, 3), (3, 1), (4, 0)];
    assert_eq!(KdfSel.select(&edges, &layers), vec![0, 1, 2, 4]);
}

#[test]
fn self_loop_is_a_neighbor() {
    let layers = vec![Edge, Edge];
    assert_eq!(KdfSel.select(&vec![(0, 0), (1, 0)], &layers), vec![0, 1]);
}

#[test]
fn garbage_only_keeps_nothing() {
    let layers = vec![Garbage; 4];
    assert_eq!(KdfSel.select(&vec![(0, 1), (2, 3)], &layers), Vec::<u32>::new());
    assert_eq!(KdfSel.name(), "KDF");
}
