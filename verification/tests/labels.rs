use std::collections::HashSet;
use cgb_kdf::labels::{CacheStats, FingerprintKey, NodeLabel};

#[test]
fn test_node_label_from_str() {
    assert_eq!("isolated_truth".parse::<NodeLabel>().unwrap(), NodeLabel::IsolatedTruth);
    assert_eq!("ISOLATED_TRUTH".parse::<NodeLabel>().unwrap(), NodeLabel::IsolatedTruth);
    assert_eq!("normal".parse::<NodeLabel>().unwrap(), NodeLabel::Normal);
    assert_eq!("garbage".parse::<NodeLabel>().unwrap(), NodeLabel::Garbage);
    assert_eq!("unknown".parse::<NodeLabel>().unwrap(), NodeLabel::Unknown);
    assert_eq!("something_else".parse::<NodeLabel>().unwrap(), NodeLabel::Unknown);
}

#[test]
fn test_node_label_as_str() {
    assert_eq!(NodeLabel::IsolatedTruth.as_str(), "isolated_truth");
    assert_eq!(NodeLabel::Normal.as_str(), "normal");
    assert_eq!(NodeLabel::Garbage.as_str(), "garbage");
    assert_eq!(NodeLabel::Unknown.as_str(), "unknown");
}

#[test]
fn test_node_label_clone() {
    let label = NodeLabel::IsolatedTruth;
    let cloned = label.clone();
    assert_eq!(label, cloned);
}

#[test]
fn test_node_label_hash() {
    let mut set = HashSet::new();
    set.insert(NodeLabel::Normal);
    set.insert(NodeLabel::Garbage);
    assert_eq!(set.len(), 2);
    assert!(set.contains(&NodeLabel::Normal));
}

#[test]
fn test_cache_stats_clone() {
    let stats = CacheStats {
        total_computations: 5,
        cache_hits: 3,
        cache_size: 2,
    };
    let cloned = stats.clone();
    assert_eq!(stats.total_computations, cloned.total_computations);
}

#[test]
fn test_fingerprint_key_hash() {
    let key1 = FingerprintKey {
        node_id: "node1".to_string(),
        label: "normal".to_string(),
    };
    let key2 = FingerprintKey {
        node_id: "node2".to_string(),
        label: "normal".to_string(),
    };
    let mut set = HashSet::new();
    set.insert(key1.clone());
    set.insert(key2);
    assert_eq!(set.len(), 2);
}

#[test]
fn test_fingerprint_key_clone() {
    let key = FingerprintKey {
        node_id: "test".to_string(),
        label: "normal".to_string(),
    };
    let cloned = key.clone();
    assert_eq!(key.node_id, cloned.node_id);
}

#[test]
fn fingerprint_keys_equal_by_fields() {
    let a = FingerprintKey { node_id: "n".to_string(), label: "normal".to_string() };
    let b = FingerprintKey { node_id: "n".to_string(), label: "normal".to_string() };
    let c = FingerprintKey { node_id: "n".to_string(), label: "garbage".to_string() };
    let mut set = HashSet::new();
    set.insert(a);
    set.insert(b);
    set.insert(c);
    assert_eq!(set.len(), 2);
}

#[test]
fn label_names_round_trip() {
    for label in [NodeLabel::IsolatedTruth, NodeLabel::Normal, NodeLabel::Garbage, NodeLabel::Unknown] {
        assert_eq!(NodeLabel::parse_name(label.as_str()), label);
    }
}

#[test]
fn label_parse_ignores_case() {
    assert_eq!(NodeLabel::parse_name("GarBage"), NodeLabel::Garbage);
    assert_eq!(NodeLabel::parse_name("NORMAL"), NodeLabel::Normal);
    assert_eq!(NodeLabel::parse_name(" normal"), NodeLabel::Unknown);
    assert_eq!(NodeLabel::parse_name(""), NodeLabel::Unknown);
}

#[test]
fn cache_stats_default_is_zero() {
    let s = CacheStats::default();
    assert_eq!(s.total_computations, 0);
    assert_eq!(s.cache_hits, 0);
    assert_eq!(s.cache_size, 0);
}
