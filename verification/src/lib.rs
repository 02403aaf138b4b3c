//! Knowledge decay framework: the discrete logic of deciding which nodes of
//! a knowledge graph survive a retention budget, of building the graphs it
//! is run on (note vaults, public datasets, adversarial benchmarks), and of
//! queueing its background work.

pub mod labels;
pub mod selection;
pub mod canonical;
pub mod coreset;
pub mod components;
pub mod partition;
pub mod exact;
pub mod engines;
pub mod insights;
pub mod batch;
pub mod estimators;
pub mod bias;
pub mod analogy;
pub mod text;
pub mod vault;
pub mod pii;
pub mod formats;
pub mod datasets;
pub mod generators;
