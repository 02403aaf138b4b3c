//! Relation types of the structure-mapping analogy engine.

use vstd::prelude::*;

verus! {

/// Types of relations between nodes, used for structure mapping.
#[derive(Clone, Debug, PartialEq, Eq, Hash, Structural)]
pub enum RelationType {
    Causal,
    Temporal,
    Similarity,
    PartOf,
    Enables,
    Contrast,
    Attribute,
}

/// The relation types that may be mapped onto `r`: `r` itself, and its
/// partner where it has one (Causal with Enables, Similarity with Contrast).
pub open spec fn compatible_list(r: RelationType) -> Seq<RelationType> {
    match r {
        RelationType::Causal => seq![RelationType::Causal, RelationType::Enables],
        RelationType::Temporal => seq![RelationType::Temporal],
        RelationType::Similarity => seq![RelationType::Similarity, RelationType::Contrast],
        RelationType::PartOf => seq![RelationType::PartOf],
        RelationType::Enables => seq![RelationType::Enables, RelationType::Causal],
        RelationType::Contrast => seq![RelationType::Contrast, RelationType::Similarity],
        RelationType::Attribute => seq![RelationType::Attribute],
    }
}

/// `a` may be mapped onto `b`.
pub open spec fn compatible(a: RelationType, b: RelationType) -> bool {
    compatible_list(a).contains(b)
}

impl RelationType {
    /// The relation types compatible with this one, each once, this one first.
    pub fn compatible_types(&self) -> (types: Vec<RelationType>)
        ensures
            types@ == compatible_list(*self),
            types@.no_duplicates(),
    {
        match self {
            RelationType::Causal => vec![RelationType::Causal, RelationType::Enables],
            RelationType::Temporal => vec![RelationType::Temporal],
            RelationType::Similarity => vec![RelationType::Similarity, RelationType::Contrast],
            RelationType::PartOf => vec![RelationType::PartOf],
            RelationType::Enables => vec![RelationType::Enables, RelationType::Causal],
            RelationType::Contrast => vec![RelationType::Contrast, RelationType::Similarity],
            RelationType::Attribute => vec![RelationType::Attribute],
        }
    }
}

/// The partner type of `r`, where it has one.
pub open spec fn partner(r: RelationType) -> Option<RelationType> {
    match r {
        RelationType::Causal => Some(RelationType::Enables),
        RelationType::Enables => Some(RelationType::Causal),
        RelationType::Similarity => Some(RelationType::Contrast),
        RelationType::Contrast => Some(RelationType::Similarity),
        _ => None,
    }
}

proof fn lemma_compatible_members(r: RelationType, x: RelationType)
    ensures
        compatible(r, x) <==> (x == r || partner(r) == Some(x)),
{
    let l = compatible_list(r);
    assert(l[0] == r);
    if let Some(p) = partner(r) {
        assert(l.len() == 2 && l[1] == p);
    } else {
        assert(l.len() == 1);
    }
}

/// Compatibility is reflexive and symmetric: every relation type may be mapped
/// onto itself, and `a` onto `b` exactly when `b` onto `a`.
pub proof fn lemma_compatibility_reflexive_symmetric(a: RelationType, b: RelationType)
    ensures
        compatible(a, a),
        compatible(a, b) == compatible(b, a),
{
    lemma_compatible_members(a, a);
    lemma_compatible_members(a, b);
    lemma_compatible_members(b, a);
}

/// Counters of analogy discovery.
#[derive(Clone, Debug)]
pub struct DiscoveryStats {
    pub discovery_attempts: u64,
    pub successful_discoveries: u64,
}

impl Default for DiscoveryStats {
    fn default() -> (s: Self)
        ensures
            s.discovery_attempts == 0,
            s.successful_discoveries == 0,
    {
        DiscoveryStats { discovery_attempts: 0, successful_discoveries: 0 }
    }
}

/// One xorshift64 step: shifts by 13 left, 7 right and 17 left.
pub open spec fn xorshift_step(s: u64) -> u64 {
    let a = s ^ (s << 13u64);
    let b = a ^ (a >> 7u64);
    b ^ (b << 17u64)
}

/// The deterministic xorshift64 generator of the analogy engine.
pub struct SimpleRng {
    state: u64,
}

impl SimpleRng {
    /// The generator's current state.
    pub closed spec fn state(&self) -> u64 {
        self.state
    }

    /// A generator seeded with `seed + 1` (wrapping), so that seed 0 does
    /// not start from the all-zero state.
    pub fn new(seed: u64) -> (r: Self)
        ensures
            r.state() == seed.wrapping_add(1),
    {
        SimpleRng { state: seed.wrapping_add(1) }
    }

    /// Advances the state by one xorshift step and returns it.
    pub fn next(&mut self) -> (r: u64)
        ensures
            r == xorshift_step(old(self).state()),
            final(self).state() == r,
    {
        self.state = self.state ^ (self.state << 13u64);
        self.state = self.state ^ (self.state >> 7u64);
        self.state = self.state ^ (self.state << 17u64);
        self.state
    }

    /// The next value as a `usize` (truncated where `usize` is narrower).
    pub fn next_usize(&mut self) -> (r: usize)
        ensures
            r == xorshift_step(old(self).state()) as usize,
            final(self).state() == xorshift_step(old(self).state()),
    {
        let v = self.next();
        #[verifier::truncate]
        (v as usize)
    }
}

} // verus!
