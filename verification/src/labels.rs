//! Labels, layers and small enumerations shared across the library.

use vstd::prelude::*;

verus! {

/// Node label used when generating structural fingerprints.
#[derive(Clone, Debug, PartialEq, Eq, Hash, Structural)]
pub enum NodeLabel {
    IsolatedTruth,
    Normal,
    Garbage,
    Unknown,
}

/// The canonical lower-case name of a label.
pub open spec fn label_name(label: NodeLabel) -> Seq<char> {
    match label {
        NodeLabel::IsolatedTruth => "isolated_truth"@,
        NodeLabel::Normal => "normal"@,
        NodeLabel::Garbage => "garbage"@,
        NodeLabel::Unknown => "unknown"@,
    }
}

impl NodeLabel {
    /// The canonical lower-case name of this label.
    pub fn as_str(&self) -> (s: &'static str)
        ensures
            s@ == label_name(*self),
    {
        match self {
            NodeLabel::IsolatedTruth => "isolated_truth",
            NodeLabel::Normal => "normal",
            NodeLabel::Garbage => "garbage",
            NodeLabel::Unknown => "unknown",
        }
    }
}

/// The layer a node is classified into.
#[derive(Clone, Copy, Debug, PartialEq, Eq, Hash, Structural)]
pub enum Layer {
    /// Densely connected, established knowledge.
    Core,
    /// Rarely connected nodes, protected from decay.
    Rare,
    /// Ordinary nodes at the edge of the graph.
    Edge,
    /// Nodes to be dropped.
    Garbage,
}

/// Cache key of a structural fingerprint.
#[derive(Clone, Debug, Hash, Eq, PartialEq)]
pub struct FingerprintKey {
    pub node_id: String,
    pub label: String,
}

/// Fingerprint cache counters.
#[derive(Clone, Debug)]
pub struct CacheStats {
    pub total_computations: u64,
    pub cache_hits: u64,
    pub cache_size: usize,
}

impl Default for CacheStats {
    fn default() -> (s: Self)
        ensures
            s.total_computations == 0,
            s.cache_hits == 0,
            s.cache_size == 0,
    {
        CacheStats { total_computations: 0, cache_hits: 0, cache_size: 0 }
    }
}

} // verus!
