use cgb_kdf::text::{hash_to_seed, normalize_link_target, stable_hash_hex8, to_lower};

#[test]
fn stable_hash_is_deterministic() {
    assert_eq!(stable_hash_hex8("hello"), stable_hash_hex8("hello"));
    assert_ne!(stable_hash_hex8("hello"), stable_hash_hex8("world"));
}

fn reference_fnv_hex8(s: &str) -> String {
    let mut h: u64 = 0xcbf29ce484222325;
    for b in s.as_bytes() {
        h ^= *b as u64;
        h = h.wrapping_mul(0x100000001b3);
    }
    format!("{:08x}", h as u32 ^ (h >> 32) as u32)
}

#[test]
fn stable_hash_has_eight_lower_hex_digits() {
    for s in ["", "a", "hello", "note title", "日本語のノート", "x".repeat(100).as_str()] {
        let h = stable_hash_hex8(s);
        assert_eq!(h.len(), 8);
        assert!(h.chars().all(|c| c.is_ascii_hexdigit() && !c.is_ascii_uppercase()));
        assert_eq!(h, reference_fnv_hex8(s));
    }
}

#[test]
fn stable_hash_of_empty_string() {
    // FNV offset basis 0xcbf29ce484222325 folded: 0x84222325 ^ 0xcbf29ce4
    assert_eq!(stable_hash_hex8(""), "4fd0bfc1");
}

#[test]
fn link_targets_normalize() {
    assert_eq!(normalize_link_target("Alpha"), "alpha");
    assert_eq!(normalize_link_target("Alpha.md"), "alpha");
    assert_eq!(normalize_link_target("Notes.md.md"), "notes");
    assert_eq!(normalize_link_target("  Mixed Case  "), "mixed case");
    assert_eq!(normalize_link_target("Report.MD"), "report");
    assert_eq!(normalize_link_target("ALPHA.MD"), "alpha");
    assert_eq!(normalize_link_target(".md"), "");
}

#[test]
fn lower_case_keys() {
    assert_eq!(to_lower("ÄBC Note"), "äbc note");
    assert_eq!(to_lower("already"), "already");
}

#[test]
fn seeds_are_deterministic_and_distinguish_ids() {
    assert_eq!(hash_to_seed("node1"), hash_to_seed("node1"));
    assert_ne!(hash_to_seed("node1"), hash_to_seed("node2"));
}

#[test]
fn suffix_is_stripped_after_case_folding_before_trimming() {
    // a trailing space keeps the extension, as the target is trimmed last
    assert_eq!(normalize_link_target(" Notes.MD.md "), "notes.md.md");
    assert_eq!(normalize_link_target("note.md "), "note.md");
    assert_eq!(normalize_link_target("Notes.MD.md"), "notes");
    assert_eq!(normalize_link_target("Alpha .md"), "alpha");
    assert_eq!(normalize_link_target("a.md .md"), "a.md");
}

#[test]
fn label_names_read_back() {
    use_labels_roundtrip();
}

fn use_labels_roundtrip() {
    let all = [
        cgb_kdf::labels::NodeLabel::IsolatedTruth,
        cgb_kdf::labels::NodeLabel::Normal,
        cgb_kdf::labels::NodeLabel::Garbage,
        cgb_kdf::labels::NodeLabel::Unknown,
    ];
    for l in all {
        let back: cgb_kdf::labels::NodeLabel = l.as_str().parse().unwrap();
        assert_eq!(back, l);
    }
}
