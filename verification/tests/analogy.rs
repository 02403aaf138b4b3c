use cgb_kdf::analogy::{DiscoveryStats, RelationType, SimpleRng};

#[test]
fn compatible_relation_types() {
    assert_eq!(RelationType::Causal.compatible_types(), vec![RelationType::Causal, RelationType::Enables]);
    assert_eq!(RelationType::Temporal.compatible_types(), vec![RelationType::Temporal]);
    assert_eq!(RelationType::Contrast.compatible_types(), vec![RelationType::Contrast, RelationType::Similarity]);
    assert_eq!(RelationType::Attribute.compatible_types(), vec![RelationType::Attribute]);
}

#[test]
fn compatibility_is_symmetric_and_reflexive() {
    let all = [
        RelationType::Causal,
        RelationType::Temporal,
        RelationType::Similarity,
        RelationType::PartOf,
        RelationType::Enables,
        RelationType::Contrast,
        RelationType::Attribute,
    ];
    for a in all.iter() {
        assert!(a.compatible_types().contains(a));
        for b in all.iter() {
            assert_eq!(a.compatible_types().contains(b), b.compatible_types().contains(a));
        }
    }
}

#[test]
fn discovery_stats_start_at_zero() {
    let s = DiscoveryStats::default();
    assert_eq!(s.discovery_attempts, 0);
    assert_eq!(s.successful_discoveries, 0);
}

#[test]
fn xorshift_sequence() {
    let mut rng = SimpleRng::new(0);
    assert_eq!(rng.next(), 1082269761);
    let mut again = SimpleRng::new(0);
    again.next();
    let second = again.next();
    let mut third = SimpleRng::new(0);
    third.next();
    assert_eq!(third.next_usize() as u64, second);
    assert_ne!(SimpleRng::new(1).next(), SimpleRng::new(2).next());
}
