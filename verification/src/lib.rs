//! Hodge decomposition of multi-agent consensus.
//!
//! Every disagreement decomposes into three orthogonal components: gradient
//! (resolvable), curl (cyclic) and harmonic (irreconcilable). This crate holds
//! the combinatorial side of that decomposition, with its proofs: opinion
//! graphs, the simple cycles that span the curl space, the connected
//! components behind the harmonic space, and the decision rules that turn a
//! decomposition into predictions.
pub mod decomposition;
pub mod error;
pub mod flow;
pub mod graph;
pub mod harmonic;
pub mod prediction;
pub mod text;

pub use error::HodgeError;
pub use flow::{EdgeFlow, WeightedGraph};
pub use graph::OpinionGraph;
pub use harmonic::HarmonicAnalysis;
pub use prediction::{Component, DisputePrediction, PredictionReport};
