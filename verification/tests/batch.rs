use cgb_kdf::batch::{assemble_batch, plan_batch, PairSource};

#[test]
fn pairs_without_data_are_dropped_and_cache_hits_reused() {
    let has_data = vec![true, false, true, true];
    let cached = vec![false, true, true, false];
    let (sources, to_compute) = plan_batch(&has_data, &cached, true);
    assert_eq!(
        sources,
        vec![PairSource::Compute, PairSource::MissingData, PairSource::Cached, PairSource::Compute]
    );
    assert_eq!(to_compute, vec![0, 3]);
}

#[test]
fn disabled_cache_computes_everything_with_data() {
    let (sources, to_compute) = plan_batch(&vec![true, true], &vec![true, true], false);
    assert_eq!(sources, vec![PairSource::Compute, PairSource::Compute]);
    assert_eq!(to_compute, vec![0, 1]);
}

#[test]
fn results_come_in_candidate_order() {
    let sources = vec![
        PairSource::Compute,
        PairSource::MissingData,
        PairSource::Cached,
        PairSource::Compute,
        PairSource::Compute,
    ];
    let computed = vec![true, true, false, false, true];
    assert_eq!(assemble_batch(&sources, &computed), vec![0, 2, 4]);
    assert!(assemble_batch(&vec![], &vec![]).is_empty());
}
