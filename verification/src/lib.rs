//! A corpus scheduler that feeds a fuzzer with testcases sampled at random, each with the
//! probability that its score deserves.
//!
//! The score of a testcase grows with the blocks that are reachable from the code it covers but
//! that no testcase covers yet, above all with those that few other testcases come near to.

pub mod collections;
pub mod exact;
pub mod favored;
pub mod laws;
pub mod model;
pub mod numbers;
pub mod operations;
pub mod ordering;
pub mod outcomes;
pub mod reachable;
pub mod rounding;
pub mod sampling;
pub mod scheduler;
pub mod scoring;
pub mod table;

pub use collections::IndexSet;
pub use favored::RecalcReport;
pub use model::{
    Corpus, CorpusId, Entry, Error, MapNeighboursFeedbackMetadata, ProbabilityMetadata,
    Reachability, State, Testcase,
};
pub use numbers::Number;
pub use scheduler::{
    ControlFlowGraph, ProbabilitySamplingScheduler, TestcaseScore,
    UncoveredNeighboursMaxDistribution, UncoveredNeighboursProbabilitySamplingScheduler,
};
pub use table::Table;
